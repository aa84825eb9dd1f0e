//! The index of all blocks known to this node, in the order in which they
//! were stored. A block is stored only after every block it includes.

use crate::types::{
    AuthorityIndex, BlockReference, BlockView, RoundNumber, StatementBlock,
};
use crate::wal::{OwnBlockData, WalEntry, WalEntryView, WalPosition, WalView, WalWriter};
use vstd::prelude::*;

verus! {

/// Mathematical value of one stored block: where its log entry is, and what it holds.
pub struct StoredView {
    pub position: WalPosition,
    pub block: BlockView,
}

/// Whether a block with reference `r` is among `s`.
pub open spec fn has_block(s: Seq<StoredView>, r: BlockReference) -> bool {
    exists|i: int| 0 <= i < s.len() && (#[trigger] s[i]).block.reference == r
}

/// Index in `s` of a block with reference `r`, where there is one.
pub open spec fn index_of(s: Seq<StoredView>, r: BlockReference) -> int {
    choose|i: int| 0 <= i < s.len() && (#[trigger] s[i]).block.reference == r
}

/// The block with reference `r` in `s`, where there is one.
pub open spec fn block_of(s: Seq<StoredView>, r: BlockReference) -> BlockView {
    s[index_of(s, r)].block
}

/// Whether every reference of `includes` names a block of `s`.
pub open spec fn includes_stored(s: Seq<StoredView>, includes: Seq<BlockReference>) -> bool {
    forall|k: int| 0 <= k < includes.len() ==> has_block(s, #[trigger] includes[k])
}

/// The blocks of `s` with `x` stored after them, unless a block is stored
/// under the reference of `x`: then `s` as it is.
pub open spec fn with_block(s: Seq<StoredView>, x: StoredView) -> Seq<StoredView> {
    if has_block(s, x.block.reference) {
        s
    } else {
        s.push(x)
    }
}

/// A block stays known when a block is stored, and the block stored is
/// known then.
pub proof fn lemma_with_block(s: Seq<StoredView>, x: StoredView, r: BlockReference)
    ensures
        has_block(with_block(s, x), r) <==> has_block(s, r) || x.block.reference == r,
{
    if !has_block(s, x.block.reference) {
        lemma_has_block_push(s, x, r);
    }
}

/// No two blocks of `s` share a reference.
pub open spec fn distinct_references(s: Seq<StoredView>) -> bool {
    forall|i: int, j: int|
        #![trigger s[i], s[j]]
        0 <= i < j < s.len() ==> s[i].block.reference != s[j].block.reference
}

/// Every block of `s` comes after all blocks that it includes.
pub open spec fn ancestors_first(s: Seq<StoredView>) -> bool {
    forall|i: int|
        0 <= i < s.len() ==> includes_stored(s.take(i), (#[trigger] s[i]).block.includes)
}

/// What holds of the blocks of every store.
pub open spec fn store_wf(s: Seq<StoredView>) -> bool {
    &&& distinct_references(s)
    &&& ancestors_first(s)
    &&& forall|i: int| 0 <= i < s.len() ==> (#[trigger] s[i]).block.well_formed()
}

/// A block stays known when more blocks are stored.
pub proof fn lemma_has_block_push(s: Seq<StoredView>, x: StoredView, r: BlockReference)
    ensures
        has_block(s.push(x), r) <==> has_block(s, r) || x.block.reference == r,
{
    let t = s.push(x);
    if has_block(s, r) {
        let i = index_of(s, r);
        assert(t[i].block.reference == r);
    }
    if x.block.reference == r {
        assert(t[s.len() as int].block.reference == r);
    }
    if has_block(t, r) {
        let i = index_of(t, r);
        if i < s.len() {
            assert(s[i].block.reference == r);
        }
    }
}

/// Whatever a store's beginning holds, the store holds.
pub proof fn lemma_has_block_take(s: Seq<StoredView>, n: int, r: BlockReference)
    requires
        0 <= n <= s.len(),
        has_block(s.take(n), r),
    ensures
        has_block(s, r),
        index_of(s, r) < n || !distinct_references(s),
{
    let i = index_of(s.take(n), r);
    assert(s[i].block.reference == r);
    let j = index_of(s, r);
    if distinct_references(s) && j >= n {
        assert(s[i].block.reference != s[j].block.reference);
    }
}

/// Storing a new block after all that it includes keeps a store well formed.
pub proof fn lemma_store_wf_push(s: Seq<StoredView>, x: StoredView)
    requires
        store_wf(s),
        !has_block(s, x.block.reference),
        includes_stored(s, x.block.includes),
        x.block.well_formed(),
    ensures
        store_wf(s.push(x)),
{
    let t = s.push(x);
    assert forall|i: int, j: int| #![trigger t[i], t[j]] 0 <= i < j < t.len() implies t[i].block.reference
        != t[j].block.reference by {
        if j == s.len() {
            assert(s[i].block.reference == t[i].block.reference);
        } else {
            assert(s[i].block.reference != s[j].block.reference);
        }
    }
    assert forall|i: int| 0 <= i < t.len() implies includes_stored(
        t.take(i),
        (#[trigger] t[i]).block.includes,
    ) by {
        if i == s.len() {
            assert(t.take(i) =~= s);
        } else {
            assert(t.take(i) =~= s.take(i));
            assert(t[i] == s[i]);
        }
    }
    assert forall|i: int| 0 <= i < t.len() implies (#[trigger] t[i]).block.well_formed() by {
        if i < s.len() {
            assert(t[i] == s[i]);
        }
    }
}

/// In a well-formed store every included block is known: the store is
/// closed under inclusion.
pub proof fn lemma_store_closed(s: Seq<StoredView>, r: BlockReference, k: int)
    requires
        store_wf(s),
        has_block(s, r),
        0 <= k < block_of(s, r).includes.len(),
    ensures
        has_block(s, block_of(s, r).includes[k]),
        index_of(s, block_of(s, r).includes[k]) < index_of(s, r),
{
    let i = index_of(s, r);
    assert(includes_stored(s.take(i), s[i].block.includes));
    let inc = s[i].block.includes[k];
    assert(has_block(s.take(i), inc));
    lemma_has_block_take(s, i, inc);
}

/// A reference names one block at most.
pub proof fn lemma_index_unique(s: Seq<StoredView>, i: int)
    requires
        distinct_references(s),
        0 <= i < s.len(),
    ensures
        has_block(s, s[i].block.reference),
        index_of(s, s[i].block.reference) == i,
{
    let r = s[i].block.reference;
    let j = index_of(s, r);
    if j < i {
        assert(s[j].block.reference != s[i].block.reference);
    }
    if i < j {
        assert(s[i].block.reference != s[j].block.reference);
    }
}

/// One stored block.
#[derive(Debug)]
pub struct StoredBlock {
    position: WalPosition,
    block: StatementBlock,
}

impl View for StoredBlock {
    type V = StoredView;

    closed spec fn view(&self) -> StoredView {
        StoredView { position: self.position, block: self.block@ }
    }
}

/// The blocks known to one authority.
#[derive(Debug)]
pub struct BlockStore {
    authority: AuthorityIndex,
    blocks: Vec<StoredBlock>,
}

impl View for BlockStore {
    type V = Seq<StoredView>;

    closed spec fn view(&self) -> Seq<StoredView> {
        self.blocks@.map_values(|b: StoredBlock| b@)
    }
}

impl BlockStore {
    /// What holds of every store: see [`store_wf`].
    pub open spec fn inv(&self) -> bool {
        store_wf(self@)
    }

    /// The authority whose blocks count as this store's own.
    pub closed spec fn spec_authority(&self) -> AuthorityIndex {
        self.authority
    }

    /// An empty store for the blocks seen by `authority`.
    pub fn new(authority: AuthorityIndex) -> (r: Self)
        ensures
            r.inv(),
            r@ == Seq::<StoredView>::empty(),
            r.spec_authority() == authority,
    {
        let r = BlockStore { authority, blocks: Vec::new() };
        assert(r@ =~= Seq::empty());
        r
    }

    pub fn authority(&self) -> (r: AuthorityIndex)
        ensures
            r == self.spec_authority(),
    {
        self.authority
    }

    /// Number of stored blocks.
    pub fn len(&self) -> (r: usize)
        ensures
            r == self@.len(),
    {
        self.blocks.len()
    }

    /// The block stored as number `i`.
    pub fn block_at(&self, i: usize) -> (r: &StatementBlock)
        requires
            i < self@.len(),
        ensures
            r@ == self@[i as int].block,
    {
        &self.blocks[i].block
    }

    /// Position of the log entry of the block stored as number `i`.
    pub fn position_at(&self, i: usize) -> (r: WalPosition)
        requires
            i < self@.len(),
        ensures
            r == self@[i as int].position,
    {
        self.blocks[i].position
    }

    /// Rank in the store of the block named `r`, if it is stored.
    pub fn find(&self, r: &BlockReference) -> (found: Option<usize>)
        ensures
            found is Some <==> has_block(self@, *r),
            found matches Some(i) ==> i < self@.len() && self@[i as int].block.reference == *r,
            found matches Some(i) ==> distinct_references(self@) ==> i == index_of(self@, *r),
    {
        let mut i: usize = 0;
        while i < self.blocks.len()
            invariant
                i <= self.blocks.len(),
                forall|j: int| 0 <= j < i ==> (#[trigger] self@[j]).block.reference != *r,
            decreases self.blocks.len() - i,
        {
            if *self.blocks[i].block.reference() == *r {
                assert(self@[i as int].block.reference == *r);
                proof {
                    if distinct_references(self@) {
                        lemma_index_unique(self@, i as int);
                    }
                }
                return Some(i);
            }
            i += 1;
        }
        None
    }

    /// Whether the block named `r` is stored.
    pub fn contains(&self, r: &BlockReference) -> (known: bool)
        ensures
            known == has_block(self@, *r),
    {
        self.find(r).is_some()
    }

    /// A copy of the block named `r`, if it is stored.
    pub fn get_block(&self, r: BlockReference) -> (found: Option<StatementBlock>)
        requires
            self.inv(),
        ensures
            found is Some <==> has_block(self@, r),
            found matches Some(b) ==> b@ == block_of(self@, r),
    {
        match self.find(&r) {
            Some(i) => Some(self.blocks[i].block.clone()),
            None => None,
        }
    }

    /// Position of the log entry of the block named `r`, if it is stored.
    pub fn get_position(&self, r: BlockReference) -> (found: Option<WalPosition>)
        requires
            self.inv(),
        ensures
            found is Some <==> has_block(self@, r),
            found matches Some(p) ==> p == self@[index_of(self@, r)].position,
    {
        match self.find(&r) {
            Some(i) => Some(self.blocks[i].position),
            None => None,
        }
    }

    /// Whether every block named in `includes` is stored.
    pub fn has_includes(&self, includes: &Vec<BlockReference>) -> (all: bool)
        ensures
            all == includes_stored(self@, includes@),
    {
        let mut k: usize = 0;
        while k < includes.len()
            invariant
                k <= includes.len(),
                forall|j: int| 0 <= j < k ==> has_block(self@, #[trigger] includes@[j]),
            decreases includes.len() - k,
        {
            if !self.contains(&includes[k]) {
                return false;
            }
            k += 1;
        }
        true
    }

    /// Whether `authority` has a stored block of round `round`.
    pub fn block_exists_at_authority_round(
        &self,
        authority: AuthorityIndex,
        round: RoundNumber,
    ) -> (r: bool)
        ensures
            r == exists_at(self@, authority, round),
    {
        let mut i: usize = 0;
        while i < self.blocks.len()
            invariant
                i <= self.blocks.len(),
                forall|j: int|
                    0 <= j < i ==> !by_at(#[trigger] self@[j], authority, round),
            decreases self.blocks.len() - i,
        {
            let r = self.blocks[i].block.reference();
            if r.authority == authority && r.round == round {
                assert(by_at(self@[i as int], authority, round));
                return true;
            }
            i += 1;
        }
        false
    }

    /// Highest round of a stored block; 0 for an empty store.
    pub fn highest_round(&self) -> (r: RoundNumber)
        ensures
            forall|i: int| 0 <= i < self@.len() ==> (#[trigger] self@[i]).block.reference.round <= r,
            self@.len() == 0 ==> r == 0,
            self@.len() > 0 ==> exists|i: int|
                0 <= i < self@.len() && (#[trigger] self@[i]).block.reference.round == r,
    {
        let mut best: u64 = 0;
        let mut i: usize = 0;
        while i < self.blocks.len()
            invariant
                i <= self.blocks.len(),
                forall|j: int| 0 <= j < i ==> (#[trigger] self@[j]).block.reference.round <= best,
                i == 0 ==> best == 0,
                i > 0 ==> exists|j: int|
                    0 <= j < i && (#[trigger] self@[j]).block.reference.round == best,
            decreases self.blocks.len() - i,
        {
            let round: u64 = self.blocks[i].block.round();
            if round >= best {
                best = round;
                assert(self@[i as int].block.reference.round == best);
            } else {
                let ghost w = choose|j: int|
                    0 <= j < i && (#[trigger] self@[j]).block.reference.round == best;
                assert(self@[w].block.reference.round == best);
            }
            i += 1;
        }
        best
    }

    /// Stores a received block: writes it to the log and indexes it. Storing
    /// a block that is already stored changes nothing and returns the
    /// position it has.
    pub fn insert_block(&mut self, wal: &mut WalWriter, block: StatementBlock) -> (position:
        WalPosition)
        requires
            old(self).inv(),
            old(wal).inv(),
            old(wal).has_room(1),
            includes_stored(old(self)@, block@.includes),
        ensures
            final(self).inv(),
            final(wal).inv(),
            final(self).spec_authority() == old(self).spec_authority(),
            has_block(old(self)@, block@.reference) ==> {
                &&& final(self)@ == old(self)@
                &&& final(wal)@ == old(wal)@
                &&& position == old(self)@[index_of(old(self)@, block@.reference)].position
            },
            !has_block(old(self)@, block@.reference) ==> {
                &&& position == old(wal)@.log.len()
                &&& final(self)@ == old(self)@.push(StoredView { position, block: block@ })
                &&& final(wal)@ == (WalView {
                    log: old(wal)@.log.push(WalEntryView::Block(block@)),
                    ..old(wal)@
                })
            },
    {
        match self.find(block.reference()) {
            Some(i) => self.blocks[i].position,
            None => {
                let position = wal.write(WalEntry::Block(block.clone()));
                self.push(position, block);
                position
            },
        }
    }

    /// Records a block that this authority proposed: writes it to the log
    /// with its cutoff position, and indexes it. Where a block is stored
    /// already under its reference, that block stays and the index is left
    /// as it is: a reference names one block.
    pub fn insert_own_block(&mut self, wal: &mut WalWriter, data: &OwnBlockData) -> (position:
        WalPosition)
        requires
            old(self).inv(),
            old(wal).inv(),
            old(wal).has_room(1),
            includes_stored(old(self)@, data.block@.includes),
        ensures
            final(self).inv(),
            final(wal).inv(),
            final(self).spec_authority() == old(self).spec_authority(),
            position == old(wal)@.log.len(),
            final(self)@ == with_block(old(self)@, StoredView { position, block: data.block@ }),
            final(wal)@ == (WalView {
                log: old(wal)@.log.push(WalEntryView::OwnBlock(data.next_entry, data.block@)),
                ..old(wal)@
            }),
    {
        let position = wal.write(WalEntry::OwnBlock(data.clone()));
        if !self.contains(data.block.reference()) {
            self.push(position, data.block.clone());
        }
        position
    }

    /// Indexes a block whose log entry is at `position`, without writing.
    pub fn index_block(&mut self, position: WalPosition, block: StatementBlock)
        requires
            old(self).inv(),
            includes_stored(old(self)@, block@.includes),
            !has_block(old(self)@, block@.reference),
        ensures
            final(self).inv(),
            final(self).spec_authority() == old(self).spec_authority(),
            final(self)@ == old(self)@.push(StoredView { position, block: block@ }),
    {
        self.push(position, block);
    }

    fn push(&mut self, position: WalPosition, block: StatementBlock)
        requires
            old(self).inv(),
            includes_stored(old(self)@, block@.includes),
            !has_block(old(self)@, block@.reference),
        ensures
            final(self).inv(),
            final(self).authority == old(self).authority,
            final(self)@ == old(self)@.push(StoredView { position, block: block@ }),
    {
        let _ = block.reference();
        let ghost x = StoredView { position, block: block@ };
        self.blocks.push(StoredBlock { position, block });
        proof {
            assert(self@ =~= old(self)@.push(x));
            lemma_store_wf_push(old(self)@, x);
        }
    }
}

/// Whether a stored block is by `authority` and of round `round`.
pub open spec fn by_at(x: StoredView, authority: AuthorityIndex, round: RoundNumber) -> bool {
    x.block.reference.authority == authority && x.block.reference.round == round
}

/// Whether `s` holds a block by `authority` of round `round`.
pub open spec fn exists_at(s: Seq<StoredView>, authority: AuthorityIndex, round: RoundNumber) -> bool {
    exists|i: int| 0 <= i < s.len() && by_at(#[trigger] s[i], authority, round)
}

} // verus!
