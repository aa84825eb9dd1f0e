//! Recovery: what a log, read front to back, says of the state of its writer.

use crate::block_store::{
    has_block, includes_stored, lemma_has_block_push, lemma_with_block, store_wf, with_block,
    BlockStore, StoredView,
};
use crate::consensus::{pending_view, pending_wf, MetaStatement, MetaView};
use crate::types::{
    blocks_view, clone_references, clone_statements, statements_view, AuthorityIndex,
    BlockReference, BlockView, StatementBlock,
};
use crate::wal::{
    commits_view, entries_view, CommitData, CommitView, OwnBlockData, WalEntry, WalEntryView,
    WalPosition,
};
use std::collections::VecDeque;
use vstd::prelude::*;

verus! {

/// Mathematical value of a [`RecoveredState`], with a mark for logs that no
/// core can have written.
pub struct RecoveredView {
    /// Whether the log read so far is one that a core can have written.
    pub valid: bool,
    pub store: Seq<StoredView>,
    pub last_own_block: Option<(WalPosition, BlockView)>,
    pub pending: Seq<(WalPosition, MetaView)>,
    pub state: Option<Seq<u8>>,
    pub unprocessed_blocks: Seq<BlockView>,
    pub last_committed_leader: Option<BlockReference>,
    pub committed_blocks: Seq<BlockReference>,
    pub committed_state: Option<Seq<u8>>,
    /// The references that the clock of the writer saw, in order.
    pub observed: Seq<BlockReference>,
}

/// What an empty log says.
pub open spec fn recovered_nothing() -> RecoveredView {
    RecoveredView {
        valid: true,
        store: Seq::empty(),
        last_own_block: None,
        pending: Seq::empty(),
        state: None,
        unprocessed_blocks: Seq::empty(),
        last_committed_leader: None,
        committed_blocks: Seq::empty(),
        committed_state: None,
        observed: Seq::empty(),
    }
}

/// The entries of `pending` at position `from` or later, in order.
pub open spec fn retained(pending: Seq<(WalPosition, MetaView)>, from: WalPosition) -> Seq<
    (WalPosition, MetaView),
>
    decreases pending.len(),
{
    if pending.len() == 0 {
        Seq::empty()
    } else {
        let rest = retained(pending.drop_last(), from);
        if pending.last().0 >= from {
            rest.push(pending.last())
        } else {
            rest
        }
    }
}

/// The leader of highest round among `commits`; the earliest of them where
/// several are of that round.
pub open spec fn highest_leader(commits: Seq<CommitView>) -> Option<BlockReference>
    decreases commits.len(),
{
    if commits.len() == 0 {
        None
    } else {
        match highest_leader(commits.drop_last()) {
            Some(l) => if l.round >= commits.last().leader.round {
                Some(l)
            } else {
                Some(commits.last().leader)
            },
            None => Some(commits.last().leader),
        }
    }
}

/// All blocks that `commits` bring in, in order.
pub open spec fn all_committed(commits: Seq<CommitView>) -> Seq<BlockReference>
    decreases commits.len(),
{
    if commits.len() == 0 {
        Seq::empty()
    } else {
        all_committed(commits.drop_last()) + commits.last().sub_dag
    }
}

/// Whether a block can be stored on top of `store` under the store's rules.
pub open spec fn storable(store: Seq<StoredView>, block: BlockView) -> bool {
    &&& !has_block(store, block.reference)
    &&& includes_stored(store, block.includes)
    &&& block.well_formed()
}

/// Whether `block` can be recorded on top of `store` as an own block of
/// `authority`.
pub open spec fn own_storable(store: Seq<StoredView>, block: BlockView, authority: AuthorityIndex) -> bool {
    &&& includes_stored(store, block.includes)
    &&& block.well_formed()
    &&& block.reference.authority == authority
}

/// What the log says once the entry `entry`, at `position`, is read after a
/// log that said `r`.
///
/// A received block is stored, buffered for inclusion and noted for the
/// clock. A payload is buffered. An own block is stored, unless a block is
/// stored under its reference, and becomes the last own block; of the
/// buffer only what lies at its cutoff position or later stays. A snapshot replaces the one before, and the blocks stored before
/// it need not be shown to the block handler again. A commit entry replaces
/// the one before.
pub open spec fn replay_step(
    r: RecoveredView,
    authority: AuthorityIndex,
    position: WalPosition,
    entry: WalEntryView,
) -> RecoveredView {
    if !r.valid {
        r
    } else {
        match entry {
            WalEntryView::Block(b) => if storable(r.store, b) {
                RecoveredView {
                    store: r.store.push(StoredView { position, block: b }),
                    pending: r.pending.push((position, MetaView::Include(b.reference))),
                    unprocessed_blocks: r.unprocessed_blocks.push(b),
                    observed: r.observed.push(b.reference),
                    ..r
                }
            } else {
                RecoveredView { valid: false, ..r }
            },
            WalEntryView::Payload(s) => RecoveredView {
                pending: r.pending.push((position, MetaView::Payload(s))),
                ..r
            },
            WalEntryView::OwnBlock(next_entry, b) => if own_storable(r.store, b, authority) {
                RecoveredView {
                    store: with_block(r.store, StoredView { position, block: b }),
                    pending: retained(r.pending, next_entry),
                    last_own_block: Some((next_entry, b)),
                    unprocessed_blocks: r.unprocessed_blocks.push(b),
                    observed: if b.reference.round == 0 {
                        r.observed.push(b.reference)
                    } else {
                        r.observed
                    },
                    ..r
                }
            } else {
                RecoveredView { valid: false, ..r }
            },
            WalEntryView::State(s) => RecoveredView {
                state: Some(s),
                unprocessed_blocks: Seq::empty(),
                ..r
            },
            WalEntryView::Commit(c, s) => RecoveredView {
                last_committed_leader: highest_leader(c),
                committed_blocks: all_committed(c),
                committed_state: Some(s),
                ..r
            },
        }
    }
}

/// What the log `log`, written by `authority`, says.
pub open spec fn replay(log: Seq<WalEntryView>, authority: AuthorityIndex) -> RecoveredView
    decreases log.len(),
{
    if log.len() == 0 {
        recovered_nothing()
    } else {
        replay_step(
            replay(log.drop_last(), authority),
            authority,
            (log.len() - 1) as u64,
            log.last(),
        )
    }
}

/// What is kept of a buffer is part of it, in its order.
pub proof fn lemma_retained(
    pending: Seq<(WalPosition, MetaView)>,
    from: WalPosition,
    store: Seq<StoredView>,
    log_len: nat,
)
    requires
        pending_wf(pending, store, log_len),
    ensures
        pending_wf(retained(pending, from), store, log_len),
        forall|k: int|
            0 <= k < retained(pending, from).len() ==> pending.contains(
                #[trigger] retained(pending, from)[k],
            ),
    decreases pending.len(),
{
    if pending.len() > 0 {
        let front = pending.drop_last();
        let rest = retained(front, from);
        let kept = retained(pending, from);
        assert forall|i: int| 0 <= i < front.len() implies front[i] == pending[i] by {}
        lemma_retained(front, from, store, log_len);
        assert forall|k: int| 0 <= k < kept.len() implies pending.contains(#[trigger] kept[k]) by {
            if k < rest.len() {
                let j = choose|j: int| 0 <= j < front.len() && front[j] == rest[k];
                assert(pending[j] == kept[k]);
            } else {
                assert(pending[pending.len() - 1] == kept[k]);
            }
        }
        assert forall|i: int, j: int| 0 <= i < j < kept.len() implies (#[trigger] kept[i]).0 < (
        #[trigger] kept[j]).0 by {
            if j == rest.len() {
                let a = choose|a: int| 0 <= a < front.len() && front[a] == rest[i];
                assert(pending[a].0 < pending[pending.len() - 1].0);
            }
        }
        assert forall|i: int| 0 <= i < kept.len() implies (#[trigger] kept[i]).0 < log_len && (
        kept[i].1 matches MetaView::Include(r) ==> has_block(store, r)) by {
            let a = choose|a: int| 0 <= a < pending.len() && pending[a] == kept[i];
            assert(pending[a].0 < log_len);
        }
    }
}

/// Where positions go up, what is kept from the position of an entry on is
/// the buffer from that entry on; nothing is kept from the reserved position.
pub proof fn lemma_retained_is_suffix(
    pending: Seq<(WalPosition, MetaView)>,
    at: int,
    store: Seq<StoredView>,
    log_len: nat,
)
    requires
        pending_wf(pending, store, log_len),
        log_len <= crate::wal::WAL_POSITION_MAX,
        0 <= at <= pending.len(),
    ensures
        retained(pending, crate::consensus::cutoff(pending.skip(at))) == pending.skip(at),
    decreases pending.len(),
{
    let from = crate::consensus::cutoff(pending.skip(at));
    if pending.len() > 0 {
        let front = pending.drop_last();
        assert forall|i: int| 0 <= i < front.len() implies front[i] == pending[i] by {}
        if at == pending.len() {
            assert(pending.skip(at) =~= Seq::empty());
            assert(front.skip(front.len() as int) =~= Seq::empty());
            lemma_retained_is_suffix(front, front.len() as int, store, log_len);
            assert(pending[pending.len() - 1].0 < log_len);
        } else {
            assert(pending.skip(at)[0] == pending[at]);
            if at == front.len() {
                assert(front.skip(at) =~= Seq::empty());
                lemma_retained_none(front, from);
                assert(pending.skip(at) =~= seq![pending.last()]);
            } else {
                assert(front.skip(at)[0] == pending[at]);
                assert(crate::consensus::cutoff(front.skip(at)) == from);
                lemma_retained_is_suffix(front, at, store, log_len);
                assert(pending[at].0 < pending[pending.len() - 1].0);
                assert(pending.skip(at) =~= front.skip(at).push(pending.last()));
            }
        }
    } else {
        assert(pending.skip(at) =~= Seq::empty());
    }
}

/// Nothing is kept of a buffer that lies wholly before `from`.
pub proof fn lemma_retained_none(pending: Seq<(WalPosition, MetaView)>, from: WalPosition)
    requires
        forall|i: int| 0 <= i < pending.len() ==> (#[trigger] pending[i]).0 < from,
    ensures
        retained(pending, from) == Seq::<(WalPosition, MetaView)>::empty(),
    decreases pending.len(),
{
    if pending.len() > 0 {
        let front = pending.drop_last();
        assert forall|i: int| 0 <= i < front.len() implies (#[trigger] front[i]).0 < from by {
            assert(front[i] == pending[i]);
        }
        lemma_retained_none(front, from);
        assert(pending[pending.len() - 1].0 < from);
    }
}

/// What a log says of the state of the core that wrote it.
#[derive(Debug)]
pub struct RecoveredState {
    pub block_store: BlockStore,
    pub last_own_block: Option<OwnBlockData>,
    pub pending: VecDeque<(WalPosition, MetaStatement)>,
    pub state: Option<Vec<u8>>,
    pub unprocessed_blocks: Vec<StatementBlock>,
    pub last_committed_leader: Option<BlockReference>,
    pub committed_blocks: Vec<BlockReference>,
    pub committed_state: Option<Vec<u8>>,
    pub observed: Vec<BlockReference>,
}

/// Value of optional bytes.
pub open spec fn bytes_view(b: Option<Vec<u8>>) -> Option<Seq<u8>> {
    match b {
        Some(s) => Some(s@),
        None => None,
    }
}

impl View for RecoveredState {
    type V = RecoveredView;

    open spec fn view(&self) -> RecoveredView {
        RecoveredView {
            valid: true,
            store: self.block_store@,
            last_own_block: match self.last_own_block {
                Some(o) => Some((o.next_entry, o.block@)),
                None => None,
            },
            pending: pending_view(self.pending@),
            state: bytes_view(self.state),
            unprocessed_blocks: blocks_view(self.unprocessed_blocks@),
            last_committed_leader: self.last_committed_leader,
            committed_blocks: self.committed_blocks@,
            committed_state: bytes_view(self.committed_state),
            observed: self.observed@,
        }
    }
}

/// Copies a buffer entry.
fn clone_meta(m: &MetaStatement) -> (r: MetaStatement)
    ensures
        r@ == m@,
{
    match m {
        MetaStatement::Include(r) => MetaStatement::Include(*r),
        MetaStatement::Payload(s) => MetaStatement::Payload(clone_statements(s)),
    }
}

/// Copies of the entries of `pending` at position `from` or later.
fn retain_from(pending: &VecDeque<(WalPosition, MetaStatement)>, from: WalPosition) -> (r: VecDeque<
    (WalPosition, MetaStatement),
>)
    ensures
        pending_view(r@) == retained(pending_view(pending@), from),
{
    let ghost pv = pending_view(pending@);
    let mut r: VecDeque<(WalPosition, MetaStatement)> = VecDeque::new();
    assert(pending_view(r@) =~= retained(pv.take(0), from));
    let mut k: usize = 0;
    while k < pending.len()
        invariant
            k <= pending.len(),
            pv == pending_view(pending@),
            pending_view(r@) == retained(pv.take(k as int), from),
        decreases pending.len() - k,
    {
        let ghost before = pending_view(r@);
        proof {
            assert(pv.take(k + 1).drop_last() =~= pv.take(k as int));
            assert(pv.take(k + 1).last() == pv[k as int]);
        }
        if pending[k].0 >= from {
            r.push_back((pending[k].0, clone_meta(&pending[k].1)));
            assert(pending_view(r@) =~= before.push(pv[k as int]));
        }
        k += 1;
    }
    assert(pv.take(k as int) =~= pv);
    r
}

/// The leader of highest round among `commits` and all blocks they bring in.
fn summarize_commits(commits: &Vec<CommitData>) -> (r: (Option<BlockReference>, Vec<BlockReference>))
    ensures
        r.0 == highest_leader(commits_view(commits@)),
        r.1@ == all_committed(commits_view(commits@)),
{
    let ghost cv = commits_view(commits@);
    let mut leader: Option<BlockReference> = None;
    let mut blocks: Vec<BlockReference> = Vec::new();
    let mut k: usize = 0;
    assert(blocks@ =~= all_committed(cv.take(0)));
    while k < commits.len()
        invariant
            k <= commits.len(),
            cv == commits_view(commits@),
            leader == highest_leader(cv.take(k as int)),
            blocks@ == all_committed(cv.take(k as int)),
        decreases commits.len() - k,
    {
        proof {
            assert(cv.take(k + 1).drop_last() =~= cv.take(k as int));
            assert(cv.take(k + 1).last() == cv[k as int]);
        }
        let candidate: BlockReference = commits[k].leader;
        leader = match leader {
            Some(l) => if l.round >= candidate.round {
                Some(l)
            } else {
                Some(candidate)
            },
            None => Some(candidate),
        };
        let mut more = clone_references(&commits[k].sub_dag);
        blocks.append(&mut more);
        k += 1;
    }
    assert(cv.take(k as int) =~= cv);
    (leader, blocks)
}

impl BlockStore {
    /// Reads the log `entries` of `authority` front to back and returns what
    /// it says; nothing for a log that no core can have written: one with a
    /// received block logged twice, with a block logged before a block that
    /// it includes, or with an own block of another authority.
    pub fn open(authority: AuthorityIndex, entries: &Vec<WalEntry>) -> (r: Option<RecoveredState>)
        ensures
            r is Some <==> replay(entries_view(entries@), authority).valid,
            r matches Some(s) ==> {
                &&& s@ == replay(entries_view(entries@), authority)
                &&& s.block_store.inv()
                &&& s.block_store.spec_authority() == authority
                &&& pending_wf(s@.pending, s@.store, entries@.len() as nat)
                &&& s@.last_own_block matches Some(o) ==> o.1.reference.authority == authority
                    && has_block(s@.store, o.1.reference)
            },
    {
        let ghost log = entries_view(entries@);
        let mut s = RecoveredState {
            block_store: BlockStore::new(authority),
            last_own_block: None,
            pending: VecDeque::new(),
            state: None,
            unprocessed_blocks: Vec::new(),
            last_committed_leader: None,
            committed_blocks: Vec::new(),
            committed_state: None,
            observed: Vec::new(),
        };
        proof {
            assert(log.take(0) =~= Seq::empty());
            assert(s@.pending =~= Seq::empty());
            assert(s@.unprocessed_blocks =~= Seq::empty());
            assert(s@.committed_blocks =~= Seq::empty());
            assert(s@.observed =~= Seq::empty());
            assert(s@ == recovered_nothing());
        }
        let mut i: usize = 0;
        while i < entries.len()
            invariant
                i <= entries.len(),
                log == entries_view(entries@),
                s@ == replay(log.take(i as int), authority),
                s.block_store.inv(),
                s.block_store.spec_authority() == authority,
                pending_wf(s@.pending, s@.store, i as nat),
                s@.last_own_block matches Some(o) ==> o.1.reference.authority == authority
                    && has_block(s@.store, o.1.reference),
            decreases entries.len() - i,
        {
            let ghost before = s@;
            let ghost entry = log[i as int];
            let position: WalPosition = i as u64;
            proof {
                assert(log.take(i + 1).drop_last() =~= log.take(i as int));
                assert(log.take(i + 1).last() == entry);
                assert(replay(log.take(i + 1), authority) == replay_step(
                    before,
                    authority,
                    position,
                    entry,
                ));
                if !replay_step(before, authority, position, entry).valid {
                    lemma_replay_stays_invalid(log, authority, i + 1);
                }
            }
            match &entries[i] {
                WalEntry::Block(b) => {
                    let reference = *b.reference();
                    if s.block_store.contains(&reference) || !s.block_store.has_includes(
                        b.includes(),
                    ) {
                        return None;
                    }
                    let ghost x = StoredView { position, block: b@ };
                    s.block_store.index_block(position, b.clone());
                    s.pending.push_back((position, MetaStatement::Include(reference)));
                    s.unprocessed_blocks.push(b.clone());
                    s.observed.push(reference);
                    proof {
                        assert(s@.pending =~= before.pending.push(
                            (position, MetaView::Include(reference)),
                        ));
                        assert(s@.unprocessed_blocks =~= before.unprocessed_blocks.push(b@));
                        lemma_pending_push(
                            before.pending,
                            before.store,
                            i as nat,
                            x,
                            (position, MetaView::Include(reference)),
                        );
                        if let Some(o) = s@.last_own_block {
                            lemma_has_block_push(before.store, x, o.1.reference);
                        }
                    }
                },
                WalEntry::Payload(p) => {
                    s.pending.push_back((position, MetaStatement::Payload(clone_statements(p))));
                    proof {
                        let e = (position, MetaView::Payload(statements_view(p@)));
                        assert(s@.pending =~= before.pending.push(e));
                        lemma_pending_grows(before.pending, before.store, i as nat, e);
                    }
                },
                WalEntry::OwnBlock(o) => {
                    let reference = *o.block.reference();
                    if !s.block_store.has_includes(o.block.includes()) || reference.authority
                        != authority {
                        return None;
                    }
                    let ghost x = StoredView { position, block: o.block@ };
                    if !s.block_store.contains(&reference) {
                        s.block_store.index_block(position, o.block.clone());
                    }
                    s.pending = retain_from(&s.pending, o.next_entry);
                    s.last_own_block = Some(o.clone());
                    s.unprocessed_blocks.push(o.block.clone());
                    if reference.round == 0 {
                        s.observed.push(reference);
                    }
                    proof {
                        assert(s@.unprocessed_blocks =~= before.unprocessed_blocks.push(o.block@));
                        lemma_retained(before.pending, o.next_entry, before.store, i as nat);
                        lemma_pending_with(s@.pending, before.store, i as nat, x);
                        lemma_with_block(before.store, x, reference);
                    }
                },
                WalEntry::State(bytes) => {
                    let copy = bytes.clone();
                    assert(copy@ =~= bytes@);
                    s.state = Some(copy);
                    s.unprocessed_blocks = Vec::new();
                    proof {
                        assert(s@.unprocessed_blocks =~= Seq::empty());
                        lemma_pending_later(before.pending, before.store, i as nat);
                    }
                },
                WalEntry::Commit(commits, bytes) => {
                    let copy = bytes.clone();
                    assert(copy@ =~= bytes@);
                    let (leader, blocks) = summarize_commits(commits);
                    s.last_committed_leader = leader;
                    s.committed_blocks = blocks;
                    s.committed_state = Some(copy);
                    proof {
                        lemma_pending_later(before.pending, before.store, i as nat);
                    }
                },
            }
            i += 1;
        }
        assert(log.take(i as int) =~= log);
        Some(s)
    }
}

/// A log that no core can have written stays one, whatever follows.
pub proof fn lemma_replay_stays_invalid(log: Seq<WalEntryView>, authority: AuthorityIndex, n: int)
    requires
        0 <= n <= log.len(),
        !replay(log.take(n), authority).valid,
    ensures
        !replay(log, authority).valid,
    decreases log.len() - n,
{
    if n < log.len() {
        assert(log.take(n + 1).drop_last() =~= log.take(n));
        lemma_replay_stays_invalid(log, authority, n + 1);
    } else {
        assert(log.take(n) =~= log);
    }
}

/// A buffer stays well formed when a newly stored block is buffered.
pub proof fn lemma_pending_push(
    pending: Seq<(WalPosition, MetaView)>,
    store: Seq<StoredView>,
    log_len: nat,
    x: StoredView,
    e: (WalPosition, MetaView),
)
    requires
        pending_wf(pending, store, log_len),
        e.0 == log_len,
        e.1 == MetaView::Include(x.block.reference),
    ensures
        pending_wf(pending.push(e), store.push(x), log_len + 1),
{
    let p = pending.push(e);
    assert forall|i: int| 0 <= i < p.len() implies ((#[trigger] p[i]).1 matches MetaView::Include(
        r,
    ) ==> has_block(store.push(x), r)) by {
        if let MetaView::Include(r) = p[i].1 {
            lemma_has_block_push(store, x, r);
            if i < pending.len() {
                assert(p[i] == pending[i]);
            }
        }
    }
    assert forall|i: int, j: int| 0 <= i < j < p.len() implies (#[trigger] p[i]).0 < (
    #[trigger] p[j]).0 by {
        assert(p[i] == pending[i]);
        if j < pending.len() {
            assert(p[j] == pending[j]);
        }
    }
    assert forall|i: int| 0 <= i < p.len() implies (#[trigger] p[i]).0 < log_len + 1 by {
        if i < pending.len() {
            assert(p[i] == pending[i]);
        }
    }
}

/// A buffer stays well formed when a payload is buffered.
pub proof fn lemma_pending_grows(
    pending: Seq<(WalPosition, MetaView)>,
    store: Seq<StoredView>,
    log_len: nat,
    e: (WalPosition, MetaView),
)
    requires
        pending_wf(pending, store, log_len),
        e.0 == log_len,
        e.1 is Payload,
    ensures
        pending_wf(pending.push(e), store, log_len + 1),
{
    let p = pending.push(e);
    assert forall|i: int| 0 <= i < p.len() implies ((#[trigger] p[i]).1 matches MetaView::Include(
        r,
    ) ==> has_block(store, r)) by {
        if i < pending.len() {
            assert(p[i] == pending[i]);
        }
    }
    assert forall|i: int, j: int| 0 <= i < j < p.len() implies (#[trigger] p[i]).0 < (
    #[trigger] p[j]).0 by {
        assert(p[i] == pending[i]);
        if j < pending.len() {
            assert(p[j] == pending[j]);
        }
    }
    assert forall|i: int| 0 <= i < p.len() implies (#[trigger] p[i]).0 < log_len + 1 by {
        if i < pending.len() {
            assert(p[i] == pending[i]);
        }
    }
}

/// A buffer stays well formed when a block is stored and the log grows.
pub proof fn lemma_pending_stored(
    pending: Seq<(WalPosition, MetaView)>,
    store: Seq<StoredView>,
    log_len: nat,
    x: StoredView,
)
    requires
        pending_wf(pending, store, log_len),
    ensures
        pending_wf(pending, store.push(x), log_len + 1),
{
    assert forall|i: int| 0 <= i < pending.len() implies ((
    #[trigger] pending[i]).1 matches MetaView::Include(r) ==> has_block(store.push(x), r)) by {
        if let MetaView::Include(r) = pending[i].1 {
            lemma_has_block_push(store, x, r);
        }
    }
}

/// A buffer stays well formed when an own block is recorded and the log
/// grows.
pub proof fn lemma_pending_with(
    pending: Seq<(WalPosition, MetaView)>,
    store: Seq<StoredView>,
    log_len: nat,
    x: StoredView,
)
    requires
        pending_wf(pending, store, log_len),
    ensures
        pending_wf(pending, with_block(store, x), log_len + 1),
{
    if !has_block(store, x.block.reference) {
        lemma_pending_stored(pending, store, log_len, x);
    }
}

/// A buffer stays well formed when the log grows.
pub proof fn lemma_pending_later(
    pending: Seq<(WalPosition, MetaView)>,
    store: Seq<StoredView>,
    log_len: nat,
)
    requires
        pending_wf(pending, store, log_len),
    ensures
        pending_wf(pending, store, log_len + 1),
{
}

/// What a log says once one more entry is written.
pub proof fn lemma_replay_push(log: Seq<WalEntryView>, authority: AuthorityIndex, entry: WalEntryView)
    ensures
        replay(log.push(entry), authority) == replay_step(
            replay(log, authority),
            authority,
            log.len() as u64,
            entry,
        ),
{
    assert(log.push(entry).drop_last() =~= log);
}

/// The beginning of a well-formed store is a well-formed store.
pub proof fn lemma_store_wf_take(s: Seq<StoredView>, n: int)
    requires
        store_wf(s),
        0 <= n <= s.len(),
    ensures
        store_wf(s.take(n)),
{
    let t = s.take(n);
    assert forall|i: int| 0 <= i < t.len() implies includes_stored(
        t.take(i),
        (#[trigger] t[i]).block.includes,
    ) by {
        assert(t[i] == s[i]);
        assert(t.take(i) =~= s.take(i));
    }
    assert forall|i: int, j: int| #![trigger t[i], t[j]] 0 <= i < j < t.len() implies t[i].block.reference
        != t[j].block.reference by {
        assert(s[i].block.reference != s[j].block.reference);
    }
    assert forall|i: int| 0 <= i < t.len() implies (#[trigger] t[i]).block.well_formed() by {
        assert(t[i] == s[i]);
    }
}

/// The last block of a well-formed store could be stored on the blocks
/// before it.
pub proof fn lemma_last_storable(s: Seq<StoredView>)
    requires
        store_wf(s),
        s.len() > 0,
    ensures
        storable(s.drop_last(), s.last().block),
{
    let front = s.drop_last();
    let n = s.len() - 1;
    assert(front =~= s.take(n));
    assert(includes_stored(s.take(n), s[n].block.includes));
    if has_block(front, s.last().block.reference) {
        let i = crate::block_store::index_of(front, s.last().block.reference);
        assert(front[i] == s[i]);
        assert(s[i].block.reference != s[n].block.reference);
    }
}

/// What a log says once received blocks are stored one after the other.
pub proof fn lemma_replay_blocks(
    log: Seq<WalEntryView>,
    authority: AuthorityIndex,
    done: Seq<BlockView>,
)
    requires
        replay(log, authority).valid,
        store_wf(
            replay(log, authority).store + crate::consensus::stored(done, log.len()),
        ),
        log.len() + done.len() <= crate::wal::WAL_POSITION_MAX,
    ensures
        replay(log + crate::consensus::logged(done), authority) == (RecoveredView {
            store: replay(log, authority).store + crate::consensus::stored(done, log.len()),
            pending: replay(log, authority).pending + crate::consensus::included(done, log.len()),
            unprocessed_blocks: replay(log, authority).unprocessed_blocks + done,
            observed: replay(log, authority).observed + crate::consensus::references_of(done),
            ..replay(log, authority)
        }),
    decreases done.len(),
{
    let said = replay(log, authority);
    let first = log.len();
    if done.len() == 0 {
        assert(log + crate::consensus::logged(done) =~= log);
        assert(said.store + crate::consensus::stored(done, first) =~= said.store);
        assert(said.pending + crate::consensus::included(done, first) =~= said.pending);
        assert(said.unprocessed_blocks + done =~= said.unprocessed_blocks);
        assert(said.observed + crate::consensus::references_of(done) =~= said.observed);
    } else {
        let front = done.drop_last();
        let last = done.last();
        let whole = said.store + crate::consensus::stored(done, first);
        let part = said.store + crate::consensus::stored(front, first);
        assert(part =~= whole.drop_last());
        assert(part =~= whole.take(whole.len() - 1));
        lemma_store_wf_take(whole, whole.len() - 1);
        lemma_last_storable(whole);
        lemma_replay_blocks(log, authority, front);
        let before = log + crate::consensus::logged(front);
        assert(log + crate::consensus::logged(done) =~= before.push(WalEntryView::Block(last)));
        lemma_replay_push(before, authority, WalEntryView::Block(last));
        let position = (first + front.len()) as u64;
        assert(whole =~= part.push(StoredView { position, block: last }));
        assert(said.pending + crate::consensus::included(done, first) =~= (said.pending
            + crate::consensus::included(front, first)).push(
            (position, MetaView::Include(last.reference)),
        ));
        assert(said.unprocessed_blocks + done =~= (said.unprocessed_blocks + front).push(last));
        assert(said.observed + crate::consensus::references_of(done) =~= (said.observed
            + crate::consensus::references_of(front)).push(last.reference));
    }
}

/// A buffer from one of its entries on is a well-formed buffer.
pub proof fn lemma_pending_skip(
    pending: Seq<(WalPosition, MetaView)>,
    store: Seq<StoredView>,
    log_len: nat,
    n: int,
)
    requires
        pending_wf(pending, store, log_len),
        0 <= n <= pending.len(),
    ensures
        pending_wf(pending.skip(n), store, log_len),
{
    let p = pending.skip(n);
    assert forall|i: int, j: int| 0 <= i < j < p.len() implies (#[trigger] p[i]).0 < (
    #[trigger] p[j]).0 by {
        assert(p[i] == pending[n + i] && p[j] == pending[n + j]);
    }
    assert forall|i: int| 0 <= i < p.len() implies (#[trigger] p[i]).0 < log_len && (
    p[i].1 matches MetaView::Include(r) ==> has_block(store, r)) by {
        assert(p[i] == pending[n + i]);
    }
}

} // verus!
