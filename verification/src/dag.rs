//! Reachability in the stored DAG: which blocks a block builds on, directly
//! or through other blocks.

use crate::block_store::{
    block_of, has_block, index_of, lemma_has_block_take, lemma_index_unique, store_wf, BlockStore,
    StoredView,
};
use crate::types::{BlockReference, RoundNumber};
use vstd::prelude::*;

verus! {

/// Whether the block named `from` builds on the block named `to`: they are
/// the same, or a stored block that `from` includes builds on `to`.
pub open spec fn linked(s: Seq<StoredView>, from: BlockReference, to: BlockReference) -> bool
    decreases from.round, 1int, 0int,
{
    from == to || (has_block(s, from) && any_linked(
        s,
        block_of(s, from).includes,
        block_of(s, from).includes.len() as int,
        from.round,
        to,
    ))
}

/// Whether one of the first `n` references of `includes`, of a round below
/// `bound`, builds on `to`.
pub open spec fn any_linked(
    s: Seq<StoredView>,
    includes: Seq<BlockReference>,
    n: int,
    bound: RoundNumber,
    to: BlockReference,
) -> bool
    decreases bound, 0int, n,
{
    if n <= 0 {
        false
    } else {
        any_linked(s, includes, n - 1, bound, to) || (includes[n - 1].round < bound && linked(
            s,
            includes[n - 1],
            to,
        ))
    }
}

/// One of the references builds on `to` exactly when [`any_linked`] says so.
pub proof fn lemma_any_linked(
    s: Seq<StoredView>,
    includes: Seq<BlockReference>,
    n: int,
    bound: RoundNumber,
    to: BlockReference,
)
    requires
        0 <= n <= includes.len(),
    ensures
        any_linked(s, includes, n, bound, to) <==> exists|k: int|
            0 <= k < n && (#[trigger] includes[k]).round < bound && linked(s, includes[k], to),
    decreases n,
{
    if n > 0 {
        lemma_any_linked(s, includes, n - 1, bound, to);
        if any_linked(s, includes, n, bound, to) {
            if !any_linked(s, includes, n - 1, bound, to) {
                assert(includes[n - 1].round < bound && linked(s, includes[n - 1], to));
            }
        }
    }
}

/// A block that builds on a block builds on all that the latter includes.
pub proof fn lemma_linked_step(
    s: Seq<StoredView>,
    from: BlockReference,
    middle: BlockReference,
    k: int,
)
    requires
        store_wf(s),
        linked(s, from, middle),
        has_block(s, middle),
        0 <= k < block_of(s, middle).includes.len(),
    ensures
        linked(s, from, block_of(s, middle).includes[k]),
    decreases from.round, 1int, 0int,
{
    let to = block_of(s, middle).includes[k];
    let inner = block_of(s, middle).includes;
    if from == middle {
        assert(s[index_of(s, middle)].block.well_formed());
        assert(inner[k].round < from.round);
        assert(linked(s, to, to));
        lemma_any_linked(s, inner, inner.len() as int, from.round, to);
    } else {
        let includes = block_of(s, from).includes;
        lemma_any_linked(s, includes, includes.len() as int, from.round, middle);
        let j = choose|j: int|
            0 <= j < includes.len() && (#[trigger] includes[j]).round < from.round && linked(
                s,
                includes[j],
                middle,
            );
        lemma_linked_step(s, includes[j], middle, k);
        lemma_any_linked(s, includes, includes.len() as int, from.round, to);
    }
}

/// Marks closed under inclusion hold every block that a marked block builds on.
proof fn lemma_marks_complete(
    s: Seq<StoredView>,
    marks: Seq<bool>,
    from: BlockReference,
    to: BlockReference,
)
    requires
        store_wf(s),
        marks.len() == s.len(),
        has_block(s, from),
        marks[index_of(s, from)],
        linked(s, from, to),
        forall|p: int, k: int|
            #![trigger s[p].block.includes[k]]
            0 <= p < s.len() && marks[p] && 0 <= k < s[p].block.includes.len() ==> has_block(
                s,
                s[p].block.includes[k],
            ) && marks[index_of(s, s[p].block.includes[k])],
    ensures
        has_block(s, to),
        marks[index_of(s, to)],
    decreases from.round, 1int, 0int,
{
    if from != to {
        let p = index_of(s, from);
        let includes = block_of(s, from).includes;
        lemma_any_linked(s, includes, includes.len() as int, from.round, to);
        let j = choose|j: int|
            0 <= j < includes.len() && (#[trigger] includes[j]).round < from.round && linked(
                s,
                includes[j],
                to,
            );
        assert(includes[j] == s[p].block.includes[j]);
        lemma_marks_complete(s, marks, includes[j], to);
    }
}

/// For every stored block, whether the block stored as number `root` builds
/// on it.
pub fn ancestors(store: &BlockStore, root: usize) -> (marks: Vec<bool>)
    requires
        store.inv(),
        root < store@.len(),
    ensures
        marks@.len() == store@.len(),
        forall|j: int|
            0 <= j < store@.len() ==> (#[trigger] marks@[j] == linked(
                store@,
                store@[root as int].block.reference,
                store@[j].block.reference,
            )),
{
    let ghost s = store@;
    let ghost from = s[root as int].block.reference;
    let n = store.len();
    let mut marks: Vec<bool> = Vec::new();
    let mut j: usize = 0;
    while j < n
        invariant
            j <= n,
            n == s.len(),
            marks@.len() == j,
            forall|k: int| 0 <= k < j ==> (#[trigger] marks@[k]) == (k == root),
        decreases n - j,
    {
        marks.push(j == root);
        j += 1;
    }
    proof {
        lemma_index_unique(s, root as int);
    }
    let mut i: usize = root + 1;
    while i > 0
        invariant
            i <= root + 1,
            root < n,
            n == s.len(),
            s == store@,
            store.inv(),
            from == s[root as int].block.reference,
            marks@.len() == n,
            marks@[root as int],
            forall|j: int| root < j < n ==> !(#[trigger] marks@[j]),
            forall|j: int|
                0 <= j < n && (#[trigger] marks@[j]) ==> linked(s, from, s[j].block.reference),
            forall|p: int, k: int|
                #![trigger s[p].block.includes[k]]
                i <= p < n && marks@[p] && 0 <= k < s[p].block.includes.len() ==> has_block(
                    s,
                    s[p].block.includes[k],
                ) && marks@[index_of(s, s[p].block.includes[k])],
        decreases i,
    {
        i -= 1;
        if marks[i] {
            let includes = store.block_at(i).includes();
            let ghost here = s[i as int].block.reference;
            proof {
                lemma_index_unique(s, i as int);
                assert(block_of(s, here).includes == includes@);
            }
            let mut k: usize = 0;
            while k < includes.len()
                invariant
                    k <= includes.len(),
                    i <= root,
                    root < n,
                    n == s.len(),
                    s == store@,
                    store.inv(),
                    from == s[root as int].block.reference,
                    here == s[i as int].block.reference,
                    has_block(s, here),
                    index_of(s, here) == i,
                    includes@ == s[i as int].block.includes,
                    marks@.len() == n,
                    marks@[root as int],
                    marks@[i as int],
                    forall|j: int| root < j < n ==> !(#[trigger] marks@[j]),
                    forall|j: int|
                        0 <= j < n && (#[trigger] marks@[j]) ==> linked(
                            s,
                            from,
                            s[j].block.reference,
                        ),
                    forall|p: int, m: int|
                        #![trigger s[p].block.includes[m]]
                        i < p < n && marks@[p] && 0 <= m < s[p].block.includes.len()
                            ==> has_block(s, s[p].block.includes[m]) && marks@[index_of(
                            s,
                            s[p].block.includes[m],
                        )],
                    forall|m: int|
                        0 <= m < k ==> has_block(s, #[trigger] includes@[m]) && marks@[index_of(
                            s,
                            includes@[m],
                        )],
                decreases includes.len() - k,
            {
                let reference = includes[k];
                proof {
                    crate::block_store::lemma_store_closed(s, here, k as int);
                    lemma_linked_step(s, from, here, k as int);
                }
                match store.find(&reference) {
                    Some(at) => {
                        marks.set(at, true);
                    },
                    None => {},
                }
                k += 1;
            }
        }
    }
    proof {
        assert forall|j: int| 0 <= j < n implies (#[trigger] marks@[j] == linked(
            s,
            from,
            s[j].block.reference,
        )) by {
            if linked(s, from, s[j].block.reference) {
                lemma_marks_complete(s, marks@, from, s[j].block.reference);
                lemma_index_unique(s, j);
            }
        }
    }
    marks
}

} // verus!
