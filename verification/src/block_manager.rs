//! Holds back received blocks until every block they include is stored.

use crate::block_store::{
    has_block, includes_stored, lemma_has_block_push, 
    lemma_store_closed, BlockStore, StoredView,
};
use crate::types::{blocks_view, BlockReference, BlockView, RoundNumber, StatementBlock};
use crate::wal::{WalEntryView, WalPosition, WalView, WalWriter};
use vstd::prelude::*;

verus! {

/// What the store gains from a run of newly stored blocks.
pub open spec fn stored_views(r: Seq<(WalPosition, StatementBlock)>) -> Seq<StoredView> {
    r.map_values(|x: (WalPosition, StatementBlock)| StoredView { position: x.0, block: x.1@ })
}

/// What the log gains from a run of newly stored blocks.
pub open spec fn block_entries(r: Seq<(WalPosition, StatementBlock)>) -> Seq<WalEntryView> {
    r.map_values(|x: (WalPosition, StatementBlock)| WalEntryView::Block(x.1@))
}

/// Whether one of the first `n` blocks of `waiting` includes `r`.
pub open spec fn wanted(waiting: Seq<BlockView>, n: int, r: BlockReference) -> bool
    decreases n,
{
    if n <= 0 {
        false
    } else {
        wanted(waiting, n - 1, r) || waiting[n - 1].includes.contains(r)
    }
}

/// Whether a block can be stored now: everything it includes is stored.
pub open spec fn ready(store: Seq<StoredView>, b: BlockView) -> bool {
    includes_stored(store, b.includes)
}

/// Blocks whose ancestors have not all arrived yet.
#[derive(Debug)]
pub struct BlockManager {
    waiting: Vec<StatementBlock>,
}

impl View for BlockManager {
    type V = Seq<BlockView>;

    closed spec fn view(&self) -> Seq<BlockView> {
        blocks_view(self.waiting@)
    }
}

impl BlockManager {
    pub fn new() -> (r: Self)
        ensures
            r@ == Seq::<BlockView>::empty(),
    {
        let r = BlockManager { waiting: Vec::new() };
        assert(r@ =~= Seq::empty());
        r
    }

    /// Number of blocks held back.
    pub fn len(&self) -> (r: usize)
        ensures
            r == self@.len(),
    {
        self.waiting.len()
    }

    /// References of the blocks that the held-back blocks still wait for,
    /// each once.
    pub fn missing_blocks(&self, store: &BlockStore) -> (r: Vec<BlockReference>)
        ensures
            forall|k: int|
                0 <= k < r@.len() ==> !has_block(store@, #[trigger] r@[k]) && wanted(
                    self@,
                    self@.len() as int,
                    r@[k],
                ),
            forall|x: BlockReference|
                #[trigger] wanted(self@, self@.len() as int, x) && !has_block(store@, x)
                    ==> r@.contains(x),
            forall|k: int, l: int| 0 <= k < l < r@.len() ==> r@[k] != r@[l],
    {
        let mut r: Vec<BlockReference> = Vec::new();
        let mut i: usize = 0;
        while i < self.waiting.len()
            invariant
                i <= self.waiting.len(),
                forall|k: int|
                    0 <= k < r@.len() ==> !has_block(store@, #[trigger] r@[k]) && wanted(
                        self@,
                        i as int,
                        r@[k],
                    ),
                forall|x: BlockReference|
                    #[trigger] wanted(self@, i as int, x) && !has_block(store@, x)
                        ==> r@.contains(x),
                forall|k: int, l: int| 0 <= k < l < r@.len() ==> r@[k] != r@[l],
            decreases self.waiting.len() - i,
        {
            let includes = self.waiting[i].includes();
            assert(includes@ == self@[i as int].includes);
            let mut j: usize = 0;
            while j < includes.len()
                invariant
                    i < self.waiting.len(),
                    j <= includes.len(),
                    includes@ == self@[i as int].includes,
                    forall|k: int|
                        0 <= k < r@.len() ==> !has_block(store@, #[trigger] r@[k]) && (wanted(
                            self@,
                            i as int,
                            r@[k],
                        ) || includes@.take(j as int).contains(r@[k])),
                    forall|x: BlockReference|
                        #[trigger] wanted(self@, i as int, x) && !has_block(store@, x)
                            ==> r@.contains(x),
                    forall|k: int|
                        0 <= k < j && !has_block(store@, includes@[k]) ==> r@.contains(
                            #[trigger] includes@[k],
                        ),
                    forall|k: int, l: int| 0 <= k < l < r@.len() ==> r@[k] != r@[l],
                decreases includes.len() - j,
            {
                let reference = includes[j];
                let ghost before = r@;
                let ghost seen = includes@.take(j as int);
                let ghost seen_next = includes@.take(j + 1);
                if !store.contains(&reference) && !crate::types::contains_reference(&r, &reference) {
                    r.push(reference);
                }
                proof {
                    assert(seen_next[j as int] == reference);
                    assert forall|x: BlockReference| seen.contains(x) implies seen_next.contains(
                        x,
                    ) by {
                        let k = choose|k: int| 0 <= k < seen.len() && seen[k] == x;
                        assert(seen_next[k] == x);
                    }
                    assert forall|x: BlockReference|
                        seen_next.contains(x) implies seen.contains(x) || x == reference by {
                        let k = choose|k: int| 0 <= k < seen_next.len() && seen_next[k] == x;
                        if k < j {
                            assert(seen[k] == x);
                        }
                    }
                    assert forall|x: BlockReference| before.contains(x) implies r@.contains(x) by {
                        let k = choose|k: int| 0 <= k < before.len() && before[k] == x;
                        assert(r@[k] == x);
                    }
                    if r@.len() > before.len() {
                        assert(r@[before.len() as int] == reference);
                    }
                }
                j += 1;
            }
            proof {
                assert(includes@.take(j as int) =~= includes@);
                assert forall|x: BlockReference|
                    #[trigger] wanted(self@, i + 1, x) && !has_block(
                        store@,
                        x,
                    ) implies r@.contains(x) by {
                    if !wanted(self@, i as int, x) {
                        let k = choose|k: int| 0 <= k < includes@.len() && includes@[k] == x;
                        assert(r@.contains(includes@[k]));
                    }
                }
            }
            i += 1;
        }
        r
    }

    /// Takes in `blocks` and stores, from them and from the blocks held back
    /// before, every block whose included blocks are all stored, until none
    /// is left that could be stored. Returns the blocks stored, each with the
    /// position of its log entry, in the order of storing: a block comes
    /// after all that it includes, and rounds never go down. Blocks that were
    /// stored already are dropped; the others stay held back.
    pub fn add_blocks(
        &mut self,
        blocks: Vec<StatementBlock>,
        store: &mut BlockStore,
        wal: &mut WalWriter,
    ) -> (processed: Vec<(WalPosition, StatementBlock)>)
        requires
            old(store).inv(),
            old(wal).inv(),
            old(wal).has_room(old(self)@.len() + blocks@.len()),
        ensures
            final(store).inv(),
            final(wal).inv(),
            final(store).spec_authority() == old(store).spec_authority(),
            final(store)@ == old(store)@ + stored_views(processed@),
            final(wal)@ == (WalView {
                log: old(wal)@.log + block_entries(processed@),
                ..old(wal)@
            }),
            forall|k: int|
                0 <= k < processed@.len() ==> (#[trigger] processed@[k]).0 == old(wal)@.log.len()
                    + k,
            forall|k: int|
                0 <= k < processed@.len() ==> (old(self)@ + blocks_view(blocks@)).contains(
                    (#[trigger] processed@[k]).1@,
                ),
            forall|i: int, j: int|
                0 <= i <= j < processed@.len() ==> (#[trigger] processed@[i]).1@.reference.round
                    <= (#[trigger] processed@[j]).1@.reference.round,
            forall|i: int|
                0 <= i < final(self)@.len() ==> !ready(final(store)@, #[trigger] final(self)@[i]),
            forall|i: int|
                0 <= i < final(self)@.len() ==> (old(self)@ + blocks_view(blocks@)).contains(
                    #[trigger] final(self)@[i],
                ),
            forall|b: BlockView| #[trigger]
                (old(self)@ + blocks_view(blocks@)).contains(b) ==> has_block(
                    final(store)@,
                    b.reference,
                ) || final(self)@.contains(b),
            final(self)@.len() + processed@.len() <= old(self)@.len() + blocks@.len(),
    {
        let ghost input = old(self)@ + blocks_view(blocks@);
        let mut blocks = blocks;
        let ghost first = self.waiting@;
        let ghost second = blocks@;
        self.waiting.append(&mut blocks);
        assert(self@ =~= input) by {
            assert(self.waiting@ =~= first + second);
            assert(blocks_view(first + second) =~= blocks_view(first) + blocks_view(second));
        }
        let mut n: usize = 0;
        while n < self.waiting.len()
            invariant
                n <= self.waiting.len(),
                self@ == input,
                forall|k: int| 0 <= k < n ==> (#[trigger] self@[k]).well_formed(),
            decreases self.waiting.len() - n,
        {
            let _ = self.waiting[n].reference();
            assert(self@[n as int] == self.waiting@[n as int]@);
            n += 1;
        }
        let mut processed: Vec<(WalPosition, StatementBlock)> = Vec::new();
        let mut floor: RoundNumber = 0;
        assert(stored_views(processed@) =~= Seq::empty());
        assert(block_entries(processed@) =~= Seq::empty());
        assert(store@ + stored_views(processed@) =~= store@);
        assert(wal@.log + block_entries(processed@) =~= wal@.log);
        loop
            invariant
                store.inv(),
                wal.inv(),
                store.spec_authority() == old(store).spec_authority(),
                store@ == old(store)@ + stored_views(processed@),
                wal@ == (WalView { log: old(wal)@.log + block_entries(processed@), ..old(wal)@ }),
                self@.len() + processed@.len() <= input.len(),
                old(wal)@.log.len() + input.len() <= crate::wal::WAL_POSITION_MAX,
                forall|k: int|
                    0 <= k < processed@.len() ==> (#[trigger] processed@[k]).0 == old(
                        wal,
                    )@.log.len() + k,
                forall|k: int|
                    0 <= k < processed@.len() ==> input.contains((#[trigger] processed@[k]).1@),
                forall|k: int|
                    0 <= k < processed@.len() ==> (#[trigger] processed@[k]).1@.reference.round
                        <= floor,
                forall|i: int, j: int|
                    0 <= i <= j < processed@.len() ==> (#[trigger] processed@[i]).1@.reference.round
                        <= (#[trigger] processed@[j]).1@.reference.round,
                forall|i: int|
                    0 <= i < self@.len() && ready(store@, #[trigger] self@[i])
                        ==> self@[i].reference.round >= floor || has_block(
                        store@,
                        self@[i].reference,
                    ),
                forall|i: int| 0 <= i < self@.len() ==> input.contains(#[trigger] self@[i]),
                forall|i: int| 0 <= i < self@.len() ==> (#[trigger] self@[i]).well_formed(),
                forall|b: BlockView| #[trigger]
                    input.contains(b) ==> has_block(store@, b.reference) || self@.contains(b),
            ensures
                forall|i: int| 0 <= i < self@.len() ==> !ready(store@, #[trigger] self@[i]),
            decreases self@.len(),
        {
            let ghost waiting = self@;
            let ghost stored = store@;
            let next = self.next_ready(store);
            match next {
                None => {
                    break ;
                },
                Some(i) => {
                    let block = self.waiting.remove(i);
                    let ghost b = block@;
                    proof {
                        assert(waiting[i as int] == b);
                        assert(self@ =~= waiting.remove(i as int));
                        assert forall|x: BlockView| #[trigger]
                            input.contains(x) && !has_block(stored, x.reference) && x
                                != b implies self@.contains(x) by {
                            let k = choose|k: int| 0 <= k < waiting.len() && waiting[k] == x;
                            if k < i {
                                assert(self@[k] == x);
                            } else {
                                assert(self@[k - 1] == x);
                            }
                        }
                        assert forall|k: int| 0 <= k < self@.len() implies input.contains(
                            #[trigger] self@[k],
                        ) && self@[k].well_formed() && (ready(stored, self@[k]) ==> self@[k].reference.round >= floor
                            || has_block(stored, self@[k].reference)) && (ready(stored, self@[k])
                            && !has_block(stored, self@[k].reference) ==> self@[k].reference.round
                            >= b.reference.round || has_block(stored, b.reference)) by {
                            if k < i {
                                assert(self@[k] == waiting[k]);
                            } else {
                                assert(self@[k] == waiting[k + 1]);
                            }
                        }
                    }
                    if store.contains(block.reference()) {
                    } else {
                        let ghost emitted = processed@;
                        let round: RoundNumber = block.round();
                        let _ = block.reference();
                        let position = store.insert_block(wal, block.clone());
                        processed.push((position, block));
                        floor = round;
                        proof {
                            let x = StoredView { position, block: b };
                            assert(stored_views(processed@) =~= stored_views(emitted).push(x));
                            assert(block_entries(processed@) =~= block_entries(emitted).push(
                                WalEntryView::Block(b),
                            ));
                            assert(store@ =~= old(store)@ + stored_views(processed@));
                            assert(wal@.log =~= old(wal)@.log + block_entries(processed@));
                            assert forall|r: BlockReference|
                                has_block(stored, r) implies has_block(store@, r) by {
                                lemma_has_block_push(stored, x, r);
                            }
                            lemma_has_block_push(stored, x, b.reference);
                            assert forall|k: int|
                                0 <= k < self@.len() && ready(
                                    store@,
                                    #[trigger] self@[k],
                                ) implies self@[k].reference.round >= floor || has_block(
                                store@,
                                self@[k].reference,
                            ) by {
                                let w = self@[k];
                                if ready(stored, w) {
                                } else {
                                    let j = choose|j: int|
                                        0 <= j < w.includes.len() && !has_block(
                                            stored,
                                            #[trigger] w.includes[j],
                                        );
                                    lemma_has_block_push(stored, x, w.includes[j]);
                                    assert(w.includes[j] == b.reference);
                                    assert(w.includes[j].round < w.reference.round);
                                }
                            }
                        }
                    }
                },
            }
        }
        processed
    }

    /// Index of a held-back block of lowest round among those that can be
    /// stored, if there is one.
    fn next_ready(&self, store: &BlockStore) -> (r: Option<usize>)
        ensures
            r is None ==> forall|i: int|
                0 <= i < self@.len() ==> !ready(store@, #[trigger] self@[i]),
            r matches Some(i) ==> i < self@.len() && ready(store@, self@[i as int]) && forall|
                k: int,
            |
                0 <= k < self@.len() && ready(store@, #[trigger] self@[k])
                    ==> self@[i as int].reference.round <= self@[k].reference.round,
    {
        let mut best: Option<usize> = None;
        let mut i: usize = 0;
        while i < self.waiting.len()
            invariant
                i <= self.waiting.len(),
                best is None ==> forall|k: int|
                    0 <= k < i ==> !ready(store@, #[trigger] self@[k]),
                best matches Some(m) ==> m < i && ready(store@, self@[m as int]) && forall|
                    k: int,
                |
                    0 <= k < i && ready(store@, #[trigger] self@[k])
                        ==> self@[m as int].reference.round <= self@[k].reference.round,
            decreases self.waiting.len() - i,
        {
            assert(self@[i as int] == self.waiting@[i as int]@);
            if store.has_includes(self.waiting[i].includes()) {
                let better = match best {
                    None => true,
                    Some(m) => self.waiting[i].round() < self.waiting[m].round(),
                };
                if better {
                    best = Some(i);
                }
            }
            i += 1;
        }
        best
    }
}

} // verus!
