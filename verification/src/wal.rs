//! The write-ahead log as the core sees it: an append-only sequence of typed
//! entries, each at a position that never changes.

use crate::types::{
    clone_references, clone_statements, statements_view, BaseStatement, BlockReference, BlockView,
    StatementBlock, StatementView,
};
use vstd::prelude::*;

verus! {

/// Handle of one log entry. Positions grow in the order of writing.
pub type WalPosition = u64;

/// Reserved position that no entry has; as a successor it means "none".
pub const WAL_POSITION_MAX: WalPosition = 0xffff_ffff_ffff_ffff;

/// Tag of an entry that holds a received or genesis block.
pub const WAL_ENTRY_BLOCK: u16 = 1;

/// Tag of an entry that holds statements gathered for the next own block.
pub const WAL_ENTRY_PAYLOAD: u16 = 2;

/// Tag of an entry that holds an own block and its cutoff position.
pub const WAL_ENTRY_OWN_BLOCK: u16 = 3;

/// Tag of an entry that holds a snapshot of the block handler.
pub const WAL_ENTRY_STATE: u16 = 4;

/// Tag of an entry that holds commit decisions and the observer's snapshot.
pub const WAL_ENTRY_COMMIT: u16 = 5;

/// An own block together with the position of the first log entry that it
/// did not consume ([`WAL_POSITION_MAX`] when it consumed them all).
#[derive(Debug)]
pub struct OwnBlockData {
    pub next_entry: WalPosition,
    pub block: StatementBlock,
}

impl Clone for OwnBlockData {
    fn clone(&self) -> (r: Self)
        ensures
            r.next_entry == self.next_entry,
            r.block@ == self.block@,
    {
        OwnBlockData { next_entry: self.next_entry, block: self.block.clone() }
    }
}

/// A committed leader and the blocks that it brings in, in commit order.
#[derive(Debug)]
pub struct CommitData {
    pub leader: BlockReference,
    pub sub_dag: Vec<BlockReference>,
}

/// Mathematical value of a [`CommitData`].
pub struct CommitView {
    pub leader: BlockReference,
    pub sub_dag: Seq<BlockReference>,
}

impl View for CommitData {
    type V = CommitView;

    open spec fn view(&self) -> CommitView {
        CommitView { leader: self.leader, sub_dag: self.sub_dag@ }
    }
}

impl Clone for CommitData {
    fn clone(&self) -> (r: Self)
        ensures
            r@ == self@,
    {
        CommitData { leader: self.leader, sub_dag: clone_references(&self.sub_dag) }
    }
}

/// Values of a sequence of commit records, one for one.
pub open spec fn commits_view(s: Seq<CommitData>) -> Seq<CommitView> {
    s.map_values(|x: CommitData| x@)
}

/// Copies a list of commit records.
pub fn clone_commits(s: &Vec<CommitData>) -> (r: Vec<CommitData>)
    ensures
        commits_view(r@) == commits_view(s@),
{
    let mut r: Vec<CommitData> = Vec::new();
    let mut i: usize = 0;
    while i < s.len()
        invariant
            i <= s.len(),
            r.len() == i,
            forall|j: int| 0 <= j < i ==> r[j]@ == s[j]@,
        decreases s.len() - i,
    {
        r.push(s[i].clone());
        i += 1;
    }
    assert(commits_view(r@) =~= commits_view(s@));
    r
}

/// One entry of the log.
#[derive(Debug)]
pub enum WalEntry {
    Block(StatementBlock),
    Payload(Vec<BaseStatement>),
    OwnBlock(OwnBlockData),
    State(Vec<u8>),
    Commit(Vec<CommitData>, Vec<u8>),
}

/// Mathematical value of a [`WalEntry`].
pub enum WalEntryView {
    Block(BlockView),
    Payload(Seq<StatementView>),
    OwnBlock(WalPosition, BlockView),
    State(Seq<u8>),
    Commit(Seq<CommitView>, Seq<u8>),
}

impl View for WalEntry {
    type V = WalEntryView;

    open spec fn view(&self) -> WalEntryView {
        match self {
            WalEntry::Block(b) => WalEntryView::Block(b@),
            WalEntry::Payload(s) => WalEntryView::Payload(statements_view(s@)),
            WalEntry::OwnBlock(o) => WalEntryView::OwnBlock(o.next_entry, o.block@),
            WalEntry::State(s) => WalEntryView::State(s@),
            WalEntry::Commit(c, s) => WalEntryView::Commit(commits_view(c@), s@),
        }
    }
}

/// Tag under which an entry of this value is stored.
pub open spec fn tag_of(e: WalEntryView) -> u16 {
    match e {
        WalEntryView::Block(_) => WAL_ENTRY_BLOCK,
        WalEntryView::Payload(_) => WAL_ENTRY_PAYLOAD,
        WalEntryView::OwnBlock(_, _) => WAL_ENTRY_OWN_BLOCK,
        WalEntryView::State(_) => WAL_ENTRY_STATE,
        WalEntryView::Commit(_, _) => WAL_ENTRY_COMMIT,
    }
}

impl WalEntry {
    /// Tag under which this entry is stored.
    pub fn tag(&self) -> (r: u16)
        ensures
            r == tag_of(self@),
    {
        match self {
            WalEntry::Block(_) => WAL_ENTRY_BLOCK,
            WalEntry::Payload(_) => WAL_ENTRY_PAYLOAD,
            WalEntry::OwnBlock(_) => WAL_ENTRY_OWN_BLOCK,
            WalEntry::State(_) => WAL_ENTRY_STATE,
            WalEntry::Commit(_, _) => WAL_ENTRY_COMMIT,
        }
    }
}

impl Clone for WalEntry {
    fn clone(&self) -> (r: Self)
        ensures
            r@ == self@,
    {
        match self {
            WalEntry::Block(b) => WalEntry::Block(b.clone()),
            WalEntry::Payload(s) => WalEntry::Payload(clone_statements(s)),
            WalEntry::OwnBlock(o) => WalEntry::OwnBlock(o.clone()),
            WalEntry::State(s) => {
                let c = s.clone();
                assert(c@ =~= s@);
                WalEntry::State(c)
            },
            WalEntry::Commit(c, s) => {
                let t = s.clone();
                assert(t@ =~= s@);
                WalEntry::Commit(clone_commits(c), t)
            },
        }
    }
}

/// Values of a sequence of entries, one for one.
pub open spec fn entries_view(s: Seq<WalEntry>) -> Seq<WalEntryView> {
    s.map_values(|x: WalEntry| x@)
}

/// Mathematical value of a [`WalWriter`].
pub struct WalView {
    /// Every entry ever written, the entry at position `p` at index `p`.
    pub log: Seq<WalEntryView>,
    /// How many of them were handed out for storing.
    pub taken: nat,
    /// Whether the entries handed out next are to be made durable at once.
    pub sync_requested: bool,
}

/// The writing end of the log. Entries collect here until the owner of the
/// file takes them out to store them; the position of an entry is its rank
/// among all entries ever written.
pub struct WalWriter {
    taken: u64,
    waiting: Vec<WalEntry>,
    sync_requested: bool,
    log: Ghost<Seq<WalEntryView>>,
}

impl View for WalWriter {
    type V = WalView;

    closed spec fn view(&self) -> WalView {
        WalView { log: self.log@, taken: self.taken as nat, sync_requested: self.sync_requested }
    }
}

impl WalWriter {
    /// What holds of every writer: the entries not yet handed out are the
    /// tail of the log, and no entry sits at the reserved position.
    pub closed spec fn inv(&self) -> bool {
        &&& self.taken + self.waiting.len() == self.log@.len()
        &&& self.log@.len() <= WAL_POSITION_MAX
        &&& entries_view(self.waiting@) == self.log@.skip(self.taken as int)
    }

    /// What [`WalWriter::inv`] says of the writer's value.
    pub proof fn lemma_inv(&self)
        requires
            self.inv(),
        ensures
            self@.taken <= self@.log.len(),
            self@.log.len() <= WAL_POSITION_MAX,
    {
    }

    /// Position that the next entry gets.
    pub open spec fn spec_next_position(&self) -> nat {
        self@.log.len()
    }

    /// Whether `n` more entries fit before positions run out.
    pub open spec fn has_room(&self, n: nat) -> bool {
        self@.log.len() + n <= WAL_POSITION_MAX
    }

    /// A writer that continues a log of `stored` entries, all of them stored.
    pub fn resume(stored: &Vec<WalEntry>) -> (r: Self)
        requires
            stored.len() <= WAL_POSITION_MAX,
        ensures
            r.inv(),
            r@.log == entries_view(stored@),
            r@.taken == stored.len(),
            !r@.sync_requested,
    {
        let ghost log = entries_view(stored@);
        let r = WalWriter {
            taken: stored.len() as u64,
            waiting: Vec::new(),
            sync_requested: false,
            log: Ghost(log),
        };
        assert(entries_view(r.waiting@) =~= log.skip(stored.len() as int));
        r
    }

    /// Position that the next entry gets.
    pub fn next_position(&self) -> (r: WalPosition)
        requires
            self.inv(),
        ensures
            r == self.spec_next_position(),
            self@.log.len() <= WAL_POSITION_MAX,
            self@.taken <= self@.log.len(),
    {
        self.taken + self.waiting.len() as u64
    }

    /// How many more entries fit.
    pub fn room(&self) -> (r: u64)
        requires
            self.inv(),
        ensures
            r == WAL_POSITION_MAX - self@.log.len(),
    {
        WAL_POSITION_MAX - self.next_position()
    }

    /// Appends `entry` and returns its position.
    pub fn write(&mut self, entry: WalEntry) -> (position: WalPosition)
        requires
            old(self).inv(),
            old(self).has_room(1),
        ensures
            final(self).inv(),
            position == old(self)@.log.len(),
            final(self)@ == (WalView { log: old(self)@.log.push(entry@), ..old(self)@ }),
    {
        let position: u64 = self.taken + self.waiting.len() as u64;
        let ghost before = self.waiting@;
        let ghost log = self.log@;
        self.waiting.push(entry);
        self.log = Ghost(log.push(entry@));
        proof {
            assert(entries_view(self.waiting@) =~= entries_view(before).push(entry@));
            assert(log.push(entry@).skip(self.taken as int) =~= log.skip(self.taken as int).push(
                entry@,
            ));
        }
        position
    }

    /// Asks that what is handed out next be made durable before anything else.
    pub fn request_sync(&mut self)
        requires
            old(self).inv(),
        ensures
            final(self).inv(),
            final(self)@ == (WalView { sync_requested: true, ..old(self)@ }),
    {
        self.sync_requested = true;
    }

    /// Hands out the entries written since the last call, oldest first, with
    /// the position of the first of them and whether they are to be made
    /// durable at once.
    pub fn take_entries(&mut self) -> (r: (WalPosition, Vec<WalEntry>, bool))
        requires
            old(self).inv(),
        ensures
            final(self).inv(),
            r.0 == old(self)@.taken,
            entries_view(r.1@) == old(self)@.log.skip(old(self)@.taken as int),
            r.2 == old(self)@.sync_requested,
            final(self)@ == (WalView {
                log: old(self)@.log,
                taken: old(self)@.log.len(),
                sync_requested: false,
            }),
    {
        let first: u64 = self.taken;
        let sync = self.sync_requested;
        let mut out: Vec<WalEntry> = Vec::new();
        std::mem::swap(&mut out, &mut self.waiting);
        self.taken = first + out.len() as u64;
        self.sync_requested = false;
        proof {
            assert(entries_view(self.waiting@) =~= self.log@.skip(self.taken as int));
        }
        (first, out, sync)
    }
}

} // verus!
