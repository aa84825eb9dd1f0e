//! From committed leaders to committed blocks: each leader brings in the
//! blocks it builds on that no earlier leader brought in, in a fixed order.

use crate::block_store::{block_of, has_block, index_of, lemma_index_unique, BlockStore, StoredView};
use crate::dag::{ancestors, linked};
use crate::types::{blocks_view, contains_reference, BlockReference, BlockView, StatementBlock};
use vstd::prelude::*;

verus! {

/// The order of committed blocks: by round, then by authority, then by digest.
pub open spec fn comes_before(a: BlockReference, b: BlockReference) -> bool {
    a.round < b.round || (a.round == b.round && (a.authority < b.authority || (a.authority
        == b.authority && a.digest < b.digest)))
}

/// Decides [`comes_before`].
pub fn reference_before(a: &BlockReference, b: &BlockReference) -> (r: bool)
    ensures
        r == comes_before(*a, *b),
{
    a.round < b.round || (a.round == b.round && (a.authority < b.authority || (a.authority
        == b.authority && a.digest < b.digest)))
}

/// Whether the references of `list` go up in the order of committed blocks.
pub open spec fn ordered(list: Seq<BlockReference>) -> bool {
    forall|i: int, j: int|
        0 <= i < j < list.len() ==> comes_before(#[trigger] list[i], #[trigger] list[j])
}

/// Whether `r` names a block that `leader` brings in, given those committed
/// before: a stored block that the leader builds on and that is not
/// committed yet.
pub open spec fn brought_in(
    s: Seq<StoredView>,
    leader: BlockReference,
    committed: Set<BlockReference>,
    r: BlockReference,
) -> bool {
    has_block(s, r) && linked(s, leader, r) && !committed.contains(r)
}

/// Whether `list` names the blocks that `leader` brings in, each once, in
/// the order of committed blocks.
pub open spec fn is_sub_dag(
    s: Seq<StoredView>,
    leader: BlockReference,
    committed: Set<BlockReference>,
    list: Seq<BlockReference>,
) -> bool {
    &&& ordered(list)
    &&& forall|r: BlockReference| list.contains(r) <==> brought_in(s, leader, committed, r)
}

/// There is one way at most to list the members of a set in order.
pub proof fn lemma_ordered_unique(a: Seq<BlockReference>, b: Seq<BlockReference>)
    requires
        ordered(a),
        ordered(b),
        forall|r: BlockReference| a.contains(r) <==> b.contains(r),
    ensures
        a == b,
    decreases a.len(),
{
    if a.len() == 0 {
        if b.len() > 0 {
            assert(b.contains(b[0]));
        }
        assert(a =~= b);
    } else if b.len() == 0 {
        assert(a.contains(a[0]));
    } else {
        let x = a.last();
        let y = b.last();
        assert(a.contains(x));
        assert(b.contains(y));
        let i = choose|i: int| 0 <= i < b.len() && b[i] == x;
        let j = choose|j: int| 0 <= j < a.len() && a[j] == y;
        if i < b.len() - 1 {
            assert(comes_before(b[i], b[b.len() - 1]));
            if j < a.len() - 1 {
                assert(comes_before(a[j], a[a.len() - 1]));
            }
        }
        assert(x == y);
        let front_a = a.drop_last();
        let front_b = b.drop_last();
        assert forall|r: BlockReference| front_a.contains(r) <==> front_b.contains(r) by {
            if front_a.contains(r) {
                let k = choose|k: int| 0 <= k < front_a.len() && front_a[k] == r;
                assert(a[k] == r);
                assert(comes_before(a[k], a[a.len() - 1]));
                assert(a.contains(r));
                let m = choose|m: int| 0 <= m < b.len() && b[m] == r;
                assert(front_b[m] == r);
            }
            if front_b.contains(r) {
                let k = choose|k: int| 0 <= k < front_b.len() && front_b[k] == r;
                assert(b[k] == r);
                assert(comes_before(b[k], b[b.len() - 1]));
                assert(b.contains(r));
                let m = choose|m: int| 0 <= m < a.len() && a[m] == r;
                assert(front_a[m] == r);
            }
        }
        assert forall|i: int, j: int| 0 <= i < j < front_a.len() implies comes_before(
            #[trigger] front_a[i],
            #[trigger] front_a[j],
        ) by {
            assert(front_a[i] == a[i] && front_a[j] == a[j]);
        }
        assert forall|i: int, j: int| 0 <= i < j < front_b.len() implies comes_before(
            #[trigger] front_b[i],
            #[trigger] front_b[j],
        ) by {
            assert(front_b[i] == b[i] && front_b[j] == b[j]);
        }
        lemma_ordered_unique(front_a, front_b);
        assert(a =~= front_a.push(x));
        assert(b =~= front_b.push(y));
    }
}

/// Puts `x` into the ordered list `list` at its place, unless it is there.
pub fn insert_ordered(list: &mut Vec<BlockReference>, x: BlockReference)
    requires
        ordered(old(list)@),
    ensures
        ordered(final(list)@),
        forall|r: BlockReference| final(list)@.contains(r) <==> old(list)@.contains(r) || r == x,
{
    let ghost before = list@;
    let mut at: usize = 0;
    while at < list.len() && reference_before(&list[at], &x)
        invariant
            at <= list.len(),
            list@ == before,
            forall|k: int| 0 <= k < at ==> comes_before(#[trigger] before[k], x),
        decreases list.len() - at,
    {
        at += 1;
    }
    if at < list.len() && list[at] == x {
        assert(before.contains(x));
        return ;
    }
    list.insert(at, x);
    proof {
        let after = list@;
        assert(after =~= before.insert(at as int, x));
        assert forall|i: int, j: int| 0 <= i < j < after.len() implies comes_before(
            #[trigger] after[i],
            #[trigger] after[j],
        ) by {
            let a = if i < at {
                i
            } else {
                i - 1
            };
            let b = if j < at {
                j
            } else {
                j - 1
            };
            if i != at && j != at {
                assert(after[i] == before[a] && after[j] == before[b]);
                assert(comes_before(before[a], before[b]));
            } else if i == at {
                assert(after[j] == before[b]);
                if b > at {
                    assert(comes_before(before[at as int], before[b]));
                }
                assert(!comes_before(before[at as int], x));
                assert(before[at as int] != x);
            } else {
                assert(after[i] == before[a]);
            }
        }
        assert forall|r: BlockReference| after.contains(r) <==> before.contains(r) || r
            == x by {
            if after.contains(r) {
                let k = choose|k: int| 0 <= k < after.len() && after[k] == r;
                if k < at {
                    assert(before[k] == r);
                } else if k > at {
                    assert(before[k - 1] == r);
                }
            }
            if before.contains(r) {
                let k = choose|k: int| 0 <= k < before.len() && before[k] == r;
                if k < at {
                    assert(after[k] == r);
                } else {
                    assert(after[k + 1] == r);
                }
            }
            if r == x {
                assert(after[at as int] == r);
            }
        }
    }
}

/// A committed leader with the blocks that it brings in, in commit order.
#[derive(Debug)]
pub struct CommittedSubDag {
    pub anchor: BlockReference,
    pub blocks: Vec<StatementBlock>,
}

/// References of the blocks of a sub-DAG, in order.
pub open spec fn sub_dag_references(d: CommittedSubDag) -> Seq<BlockReference> {
    crate::consensus::references_of(blocks_view(d.blocks@))
}

/// The blocks committed once the leaders `leaders` are handled one after the
/// other, each bringing in what those before it left.
pub open spec fn committed_after(
    s: Seq<StoredView>,
    committed: Set<BlockReference>,
    leaders: Seq<BlockReference>,
    n: int,
) -> Set<BlockReference>
    decreases n,
{
    if n <= 0 {
        committed
    } else {
        let before = committed_after(s, committed, leaders, n - 1);
        before.union(Set::new(|r: BlockReference| brought_in(s, leaders[n - 1], before, r)))
    }
}

/// Remembers which blocks are committed.
#[derive(Debug)]
pub struct CommitInterpreter {
    committed: Vec<BlockReference>,
}

impl View for CommitInterpreter {
    type V = Set<BlockReference>;

    closed spec fn view(&self) -> Set<BlockReference> {
        self.committed@.to_set()
    }
}

impl CommitInterpreter {
    /// An interpreter for which nothing is committed.
    pub fn new() -> (r: Self)
        ensures
            r@ == Set::<BlockReference>::empty(),
    {
        let r = CommitInterpreter { committed: Vec::new() };
        assert(r@ =~= Set::empty());
        r
    }

    /// Whether nothing is committed.
    pub fn is_empty(&self) -> (r: bool)
        ensures
            r == (self@ == Set::<BlockReference>::empty()),
    {
        let r = self.committed.len() == 0;
        proof {
            if r {
                assert(self@ =~= Set::empty());
            } else {
                assert(self.committed@.contains(self.committed@[0]));
                assert(self@.contains(self.committed@[0]));
                assert(!Set::<BlockReference>::empty().contains(self.committed@[0]));
            }
        }
        r
    }

    /// Whether the block named `r` is committed.
    pub fn is_committed(&self, r: &BlockReference) -> (known: bool)
        ensures
            known == self@.contains(*r),
    {
        contains_reference(&self.committed, r)
    }

    /// Takes `committed` as the blocks committed so far.
    pub fn recover(&mut self, committed: Vec<BlockReference>)
        ensures
            final(self)@ == committed@.to_set(),
    {
        self.committed = committed;
    }

    /// The blocks that the stored block `leader` brings in, in commit order;
    /// they count as committed from now on.
    pub fn collect_sub_dag(&mut self, store: &BlockStore, leader: &StatementBlock) -> (r:
        CommittedSubDag)
        requires
            store.inv(),
            has_block(store@, leader@.reference),
        ensures
            r.anchor == leader@.reference,
            is_sub_dag(store@, leader@.reference, old(self)@, sub_dag_references(r)),
            forall|k: int|
                0 <= k < r.blocks@.len() ==> (#[trigger] r.blocks@[k])@ == block_of(
                    store@,
                    r.blocks@[k]@.reference,
                ),
            final(self)@ == old(self)@.union(sub_dag_references(r).to_set()),
    {
        let ghost s = store@;
        let ghost from = leader@.reference;
        let ghost done = self@;
        let root = store.find(leader.reference()).unwrap();
        let marks = ancestors(store, root);
        let mut list: Vec<BlockReference> = Vec::new();
        let mut i: usize = 0;
        while i < store.len()
            invariant
                i <= store@.len(),
                s == store@,
                store.inv(),
                self@ == done,
                marks@.len() == s.len(),
                from == s[root as int].block.reference,
                forall|j: int|
                    0 <= j < s.len() ==> (#[trigger] marks@[j] == linked(
                        s,
                        from,
                        s[j].block.reference,
                    )),
                ordered(list@),
                forall|r: BlockReference|
                    list@.contains(r) <==> exists|j: int|
                        0 <= j < i && (#[trigger] s[j]).block.reference == r && brought_in(
                            s,
                            from,
                            done,
                            r,
                        ),
            decreases store@.len() - i,
        {
            let ghost before = list@;
            let reference = *store.block_at(i).reference();
            proof {
                lemma_index_unique(s, i as int);
            }
            if marks[i] && !self.is_committed(&reference) {
                insert_ordered(&mut list, reference);
            }
            proof {
                assert forall|r: BlockReference| list@.contains(r) <==> exists|j: int|
                    0 <= j < i + 1 && (#[trigger] s[j]).block.reference == r && brought_in(
                        s,
                        from,
                        done,
                        r,
                    ) by {
                    if before.contains(r) {
                        let j = choose|j: int|
                            0 <= j < i && (#[trigger] s[j]).block.reference == r && brought_in(
                                s,
                                from,
                                done,
                                r,
                            );
                        assert(s[j].block.reference == r);
                    }
                    if r == reference && brought_in(s, from, done, r) {
                        assert(s[i as int].block.reference == r);
                    }
                    if exists|j: int|
                        0 <= j < i + 1 && (#[trigger] s[j]).block.reference == r && brought_in(
                            s,
                            from,
                            done,
                            r,
                        ) {
                        let j = choose|j: int|
                            0 <= j < i + 1 && (#[trigger] s[j]).block.reference == r
                                && brought_in(s, from, done, r);
                        if j < i {
                            assert(before.contains(r));
                        }
                    }
                }
            }
            i += 1;
        }
        proof {
            assert forall|r: BlockReference| list@.contains(r) <==> brought_in(
                s,
                from,
                done,
                r,
            ) by {
                if brought_in(s, from, done, r) {
                    let j = index_of(s, r);
                    assert(s[j].block.reference == r);
                }
            }
        }
        let mut blocks: Vec<StatementBlock> = Vec::new();
        let mut k: usize = 0;
        while k < list.len()
            invariant
                k <= list.len(),
                s == store@,
                store.inv(),
                blocks@.len() == k,
                forall|r: BlockReference| list@.contains(r) ==> has_block(s, r),
                forall|j: int|
                    0 <= j < k ==> (#[trigger] blocks@[j])@ == block_of(s, list@[j])
                        && blocks@[j]@.reference == list@[j],
            decreases list.len() - k,
        {
            assert(list@.contains(list@[k as int]));
            let block = store.get_block(list[k]).unwrap();
            blocks.push(block);
            k += 1;
        }
        let ghost listed = list@;
        let ghost known = self.committed@;
        self.committed.append(&mut list);
        let r = CommittedSubDag { anchor: *leader.reference(), blocks };
        proof {
            assert(sub_dag_references(r) =~= listed);
            assert(self.committed@ =~= known + listed);
            assert((known + listed).to_set() =~= known.to_set().union(listed.to_set())) by {
                assert forall|x: BlockReference| (known + listed).contains(x) <==> known.contains(
                    x,
                ) || listed.contains(x) by {
                    if known.contains(x) {
                        let a = choose|a: int| 0 <= a < known.len() && known[a] == x;
                        assert((known + listed)[a] == x);
                    }
                    if listed.contains(x) {
                        let a = choose|a: int| 0 <= a < listed.len() && listed[a] == x;
                        assert((known + listed)[known.len() + a] == x);
                    }
                    if (known + listed).contains(x) {
                        let a = choose|a: int|
                            0 <= a < (known + listed).len() && (known + listed)[a] == x;
                        if a < known.len() {
                            assert(known[a] == x);
                        } else {
                            assert(listed[a - known.len()] == x);
                        }
                    }
                }
            }
        }
        r
    }

    /// Handles newly committed leaders one after the other: each brings in
    /// the blocks it builds on that are not committed yet, in commit order.
    pub fn handle_commit(&mut self, store: &BlockStore, leaders: Vec<StatementBlock>) -> (r: Vec<
        CommittedSubDag,
    >)
        requires
            store.inv(),
            forall|k: int| 0 <= k < leaders@.len() ==> has_block(store@, (#[trigger] leaders@[k])@.reference),
        ensures
            r@.len() == leaders@.len(),
            forall|k: int|
                0 <= k < r@.len() ==> {
                    let d = #[trigger] r@[k];
                    let names = crate::consensus::references_of(blocks_view(leaders@));
                    &&& d.anchor == names[k]
                    &&& is_sub_dag(
                        store@,
                        names[k],
                        committed_after(store@, old(self)@, names, k),
                        sub_dag_references(d),
                    )
                    &&& forall|m: int|
                        0 <= m < d.blocks@.len() ==> (#[trigger] d.blocks@[m])@ == block_of(
                            store@,
                            d.blocks@[m]@.reference,
                        )
                },
            final(self)@ == committed_after(
                store@,
                old(self)@,
                crate::consensus::references_of(blocks_view(leaders@)),
                leaders@.len() as int,
            ),
    {
        let ghost s = store@;
        let ghost names = crate::consensus::references_of(blocks_view(leaders@));
        let mut r: Vec<CommittedSubDag> = Vec::new();
        let mut k: usize = 0;
        while k < leaders.len()
            invariant
                k <= leaders.len(),
                s == store@,
                store.inv(),
                names == crate::consensus::references_of(blocks_view(leaders@)),
                forall|j: int|
                    0 <= j < leaders@.len() ==> has_block(s, (#[trigger] leaders@[j])@.reference),
                r@.len() == k,
                self@ == committed_after(s, old(self)@, names, k as int),
                forall|j: int|
                    0 <= j < k ==> {
                        let d = #[trigger] r@[j];
                        &&& d.anchor == names[j]
                        &&& is_sub_dag(
                            s,
                            names[j],
                            committed_after(s, old(self)@, names, j),
                            sub_dag_references(d),
                        )
                        &&& forall|m: int|
                            0 <= m < d.blocks@.len() ==> (#[trigger] d.blocks@[m])@ == block_of(
                                s,
                                d.blocks@[m]@.reference,
                            )
                    },
            decreases leaders.len() - k,
        {
            let ghost before = self@;
            assert(names[k as int] == leaders@[k as int]@.reference);
            let d = self.collect_sub_dag(store, &leaders[k]);
            proof {
                let brought = Set::new(
                    |x: BlockReference| brought_in(s, names[k as int], before, x),
                );
                assert(sub_dag_references(d).to_set() =~= brought);
            }
            r.push(d);
            k += 1;
        }
        r
    }
}

} // verus!
