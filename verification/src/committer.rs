//! The commit rule: which leader blocks the stored DAG commits.

use crate::block_store::{
    has_block, index_of, lemma_index_unique, store_wf, BlockStore, StoredView,
};
use crate::committee::{is_quorum_of, leader_of, AuthoritySet, Committee};
use crate::dag::{ancestors, linked};
use crate::types::{
    blocks_view, contains_reference, AuthorityIndex, BlockReference, BlockView, RoundNumber,
    StatementBlock,
};
use vstd::prelude::*;

verus! {

/// Whether the stored block `x` votes for `leader`: it is of the round after
/// the leader's and includes the leader's block.
pub open spec fn supports(x: StoredView, leader: BlockReference) -> bool {
    x.block.reference.round == leader.round + 1 && x.block.includes.contains(leader)
}

/// The authors of the stored blocks that vote for `leader`.
pub open spec fn supporters(s: Seq<StoredView>, leader: BlockReference) -> Set<AuthorityIndex> {
    Set::new(
        |a: AuthorityIndex|
            exists|i: int|
                0 <= i < s.len() && supports(#[trigger] s[i], leader)
                    && s[i].block.reference.authority == a,
    )
}

/// Whether a quorum votes for `leader`.
pub open spec fn supported(s: Seq<StoredView>, stakes: Seq<u64>, leader: BlockReference) -> bool {
    is_quorum_of(stakes, supporters(s, leader))
}

/// Whether `x` is a block of `authority` in round `round`.
pub open spec fn is_candidate(x: BlockReference, authority: AuthorityIndex, round: RoundNumber) -> bool {
    x.authority == authority && x.round == round
}

/// Among the first `n` stored blocks, the block of `authority` in `round`
/// that meets `ok`; the one of lowest digest where several do.
pub open spec fn best_candidate(
    s: Seq<StoredView>,
    authority: AuthorityIndex,
    round: RoundNumber,
    ok: spec_fn(BlockReference) -> bool,
    n: int,
) -> Option<BlockReference>
    decreases n,
{
    if n <= 0 {
        None
    } else {
        let rest = best_candidate(s, authority, round, ok, n - 1);
        let x = s[n - 1].block.reference;
        if is_candidate(x, authority, round) && ok(x) {
            match rest {
                Some(y) => if y.digest <= x.digest {
                    Some(y)
                } else {
                    Some(x)
                },
                None => Some(x),
            }
        } else {
            rest
        }
    }
}

/// What [`best_candidate`] picks is a stored block of the authority and
/// round that meets the condition, and none of the others that do has a
/// lower digest; it picks nothing only where no block does.
pub proof fn lemma_best_candidate(
    s: Seq<StoredView>,
    authority: AuthorityIndex,
    round: RoundNumber,
    ok: spec_fn(BlockReference) -> bool,
    n: int,
)
    requires
        0 <= n <= s.len(),
    ensures
        match best_candidate(s, authority, round, ok, n) {
            Some(x) => {
                &&& is_candidate(x, authority, round)
                &&& ok(x)
                &&& exists|i: int| 0 <= i < n && (#[trigger] s[i]).block.reference == x
                &&& forall|i: int|
                    0 <= i < n && is_candidate((#[trigger] s[i]).block.reference, authority, round)
                        && ok(s[i].block.reference) ==> x.digest <= s[i].block.reference.digest
            },
            None => forall|i: int|
                0 <= i < n ==> !(is_candidate((#[trigger] s[i]).block.reference, authority, round)
                    && ok(s[i].block.reference)),
        },
    decreases n,
{
    if n > 0 {
        lemma_best_candidate(s, authority, round, ok, n - 1);
        let rest = best_candidate(s, authority, round, ok, n - 1);
        let x = s[n - 1].block.reference;
        match best_candidate(s, authority, round, ok, n) {
            Some(y) => {
                if rest == Some(y) {
                    let i = choose|i: int| 0 <= i < n - 1 && (#[trigger] s[i]).block.reference == y;
                    assert(s[i].block.reference == y);
                } else {
                    assert(s[n - 1].block.reference == y);
                }
            },
            None => {},
        }
    }
}

/// Highest round among the first `n` stored blocks; 0 where there are none.
pub open spec fn max_round(s: Seq<StoredView>, n: int) -> RoundNumber
    decreases n,
{
    if n <= 0 {
        0
    } else {
        let rest = max_round(s, n - 1);
        if s[n - 1].block.reference.round >= rest {
            s[n - 1].block.reference.round
        } else {
            rest
        }
    }
}

/// The highest round is the round of a stored block, and no stored block is
/// of a higher one.
pub proof fn lemma_max_round(s: Seq<StoredView>, n: int)
    requires
        0 <= n <= s.len(),
    ensures
        forall|i: int| 0 <= i < n ==> (#[trigger] s[i]).block.reference.round <= max_round(s, n),
        n == 0 ==> max_round(s, n) == 0,
        n > 0 ==> exists|i: int|
            0 <= i < n && (#[trigger] s[i]).block.reference.round == max_round(s, n),
    decreases n,
{
    if n > 0 {
        lemma_max_round(s, n - 1);
        if n > 1 && s[n - 1].block.reference.round < max_round(s, n - 1) {
            let i = choose|i: int|
                0 <= i < n - 1 && (#[trigger] s[i]).block.reference.round == max_round(s, n - 1);
            assert(s[i].block.reference.round == max_round(s, n));
        } else {
            assert(s[n - 1].block.reference.round == max_round(s, n));
        }
    }
}

/// The leader block that wave `wave` commits, if it commits one. Without an
/// anchor it is the leader's block of the wave's round that a quorum votes
/// for. Below an anchor, a leader committed in a later wave, it is the
/// leader's block of the wave's round that the anchor builds on.
pub open spec fn wave_commit(
    s: Seq<StoredView>,
    stakes: Seq<u64>,
    period: u64,
    wave: int,
    anchor: Option<BlockReference>,
) -> Option<BlockReference> {
    let leader = leader_of(stakes, wave as u64);
    let round = (wave * period) as u64;
    match anchor {
        None => best_candidate(
            s,
            leader,
            round,
            |x: BlockReference| supported(s, stakes, x),
            s.len() as int,
        ),
        Some(top) => best_candidate(
            s,
            leader,
            round,
            |x: BlockReference| linked(s, top, x),
            s.len() as int,
        ),
    }
}

/// The leader blocks committed in the waves above `floor` up to `wave`, in
/// the order of their rounds, given the anchor from the waves above `wave`.
/// The waves are decided from the last one down; what a wave commits is the
/// anchor for the waves below it.
pub open spec fn commits_down(
    s: Seq<StoredView>,
    stakes: Seq<u64>,
    period: u64,
    wave: int,
    floor: int,
    anchor: Option<BlockReference>,
) -> Seq<BlockReference>
    decreases wave - floor,
{
    if wave <= floor {
        Seq::empty()
    } else {
        let pick = wave_commit(s, stakes, period, wave, anchor);
        let next = if pick is Some {
            pick
        } else {
            anchor
        };
        commits_down(s, stakes, period, wave - 1, floor, next) + match pick {
            Some(x) => seq![x],
            None => Seq::empty(),
        }
    }
}

/// The leader blocks that the store commits after round `last_commit_round`,
/// in the order of their rounds. Leaders are the blocks of the elected
/// authority in the rounds that are multiples of `period`.
pub open spec fn committed_leaders(
    s: Seq<StoredView>,
    stakes: Seq<u64>,
    period: u64,
    last_commit_round: RoundNumber,
) -> Seq<BlockReference> {
    commits_down(
        s,
        stakes,
        period,
        max_round(s, s.len() as int) as int / period as int,
        last_commit_round as int / period as int,
        None,
    )
}

/// Every leader committed is a stored block of a round that is a multiple
/// of the period and lies after the waves up to `floor`; rounds go up.
pub proof fn lemma_commits_down(
    s: Seq<StoredView>,
    stakes: Seq<u64>,
    period: u64,
    wave: int,
    floor: int,
    anchor: Option<BlockReference>,
)
    requires
        period > 0,
        0 <= floor,
        wave * period <= u64::MAX,
    ensures
        forall|k: int|
            0 <= k < commits_down(s, stakes, period, wave, floor, anchor).len() ==> {
                let x = #[trigger] commits_down(s, stakes, period, wave, floor, anchor)[k];
                &&& has_block(s, x)
                &&& x.round > floor * period
                &&& x.round <= wave * period
                &&& x.round as int % period as int == 0
            },
        forall|i: int, j: int|
            0 <= i < j < commits_down(s, stakes, period, wave, floor, anchor).len()
                ==> (#[trigger] commits_down(s, stakes, period, wave, floor, anchor)[i]).round < (
            #[trigger] commits_down(s, stakes, period, wave, floor, anchor)[j]).round,
    decreases wave - floor,
{
    if wave > floor {
        let pick = wave_commit(s, stakes, period, wave, anchor);
        let next = if pick is Some {
            pick
        } else {
            anchor
        };
        let below = commits_down(s, stakes, period, wave - 1, floor, next);
        let all = commits_down(s, stakes, period, wave, floor, anchor);
        assert((wave - 1) * period < wave * period) by (nonlinear_arith)
            requires
                period > 0,
        ;
        assert(floor * period < wave * period) by (nonlinear_arith)
            requires
                period > 0,
                floor < wave,
        ;
        assert((wave * period) % (period as int) == 0) by (nonlinear_arith)
            requires
                period > 0,
        ;
        lemma_commits_down(s, stakes, period, wave - 1, floor, next);
        let leader = leader_of(stakes, wave as u64);
        let round = (wave * period) as u64;
        match anchor {
            None => lemma_best_candidate(
                s,
                leader,
                round,
                |x: BlockReference| supported(s, stakes, x),
                s.len() as int,
            ),
            Some(top) => lemma_best_candidate(
                s,
                leader,
                round,
                |x: BlockReference| linked(s, top, x),
                s.len() as int,
            ),
        }
        assert forall|k: int| 0 <= k < all.len() implies {
            let x = #[trigger] all[k];
            &&& has_block(s, x)
            &&& x.round > floor * period
            &&& x.round <= wave * period
            &&& x.round as int % period as int == 0
        } by {
            if k < below.len() {
                assert(all[k] == below[k]);
            }
        }
        assert forall|i: int, j: int| 0 <= i < j < all.len() implies (#[trigger] all[i]).round < (
        #[trigger] all[j]).round by {
            assert(all[i] == below[i]);
            if j < below.len() {
                assert(all[j] == below[j]);
            } else {
                assert(all[j] == pick->Some_0);
                assert(below[i].round <= (wave - 1) * period);
            }
        }
    }
}

/// Decides which leader blocks a store commits.
#[derive(Debug)]
pub struct Committer {
    committee: Committee,
    period: u64,
}

impl Committer {
    /// A committer for waves of `period` rounds.
    pub fn new(committee: Committee, period: u64) -> (r: Self)
        requires
            period > 0,
        ensures
            r.spec_period() == period,
            r.spec_stakes() == committee@,
    {
        Committer { committee, period }
    }

    /// Length of a wave in rounds; never 0.
    pub closed spec fn spec_period(&self) -> u64 {
        self.period
    }

    /// Stake of the committee, by authority.
    pub closed spec fn spec_stakes(&self) -> Seq<u64> {
        self.committee@
    }

    /// The authors of the stored blocks that vote for `leader`.
    fn support(store: &BlockStore, leader: &BlockReference) -> (r: AuthoritySet)
        ensures
            r@ == supporters(store@, *leader),
    {
        let ghost s = store@;
        let mut authors = AuthoritySet::new();
        let mut i: usize = 0;
        assert(authors@ =~= supporters(s.take(0), *leader));
        while i < store.len()
            invariant
                i <= store@.len(),
                s == store@,
                authors@ == supporters(s.take(i as int), *leader),
            decreases store@.len() - i,
        {
            let ghost before = authors@;
            let block = store.block_at(i);
            let voting = leader.round < u64::MAX && block.round() == leader.round + 1
                && contains_reference(block.includes(), leader);
            assert(voting == supports(s[i as int], *leader));
            if voting {
                authors.insert(block.author());
            }
            proof {
                let a = s.take(i as int);
                let b = s.take(i + 1);
                assert forall|x: AuthorityIndex| authors@.contains(x) == supporters(
                    b,
                    *leader,
                ).contains(x) by {
                    if before.contains(x) {
                        let k = choose|k: int|
                            0 <= k < a.len() && supports(#[trigger] a[k], *leader)
                                && a[k].block.reference.authority == x;
                        assert(b[k] == a[k]);
                    }
                    if voting && s[i as int].block.reference.authority == x {
                        assert(b[i as int] == s[i as int]);
                    }
                    if supporters(b, *leader).contains(x) {
                        let k = choose|k: int|
                            0 <= k < b.len() && supports(#[trigger] b[k], *leader)
                                && b[k].block.reference.authority == x;
                        if k < i {
                            assert(a[k] == b[k]);
                        }
                    }
                }
                assert(authors@ =~= supporters(b, *leader));
            }
            i += 1;
        }
        assert(s.take(i as int) =~= s);
        authors
    }

    /// The block of `authority` in `round` that is marked in `flags`; the one
    /// of lowest digest where several are.
    fn best(
        store: &BlockStore,
        authority: AuthorityIndex,
        round: RoundNumber,
        flags: &Vec<bool>,
        Ghost(ok): Ghost<spec_fn(BlockReference) -> bool>,
    ) -> (r: Option<BlockReference>)
        requires
            flags@.len() == store@.len(),
            forall|i: int|
                0 <= i < store@.len() && is_candidate(
                    (#[trigger] store@[i]).block.reference,
                    authority,
                    round,
                ) ==> flags@[i] == ok(store@[i].block.reference),
        ensures
            r == best_candidate(store@, authority, round, ok, store@.len() as int),
    {
        let mut r: Option<BlockReference> = None;
        let mut i: usize = 0;
        while i < store.len()
            invariant
                i <= store@.len(),
                flags@.len() == store@.len(),
                forall|i: int|
                    0 <= i < store@.len() && is_candidate(
                        (#[trigger] store@[i]).block.reference,
                        authority,
                        round,
                    ) ==> flags@[i] == ok(store@[i].block.reference),
                r == best_candidate(store@, authority, round, ok, i as int),
            decreases store@.len() - i,
        {
            let x = *store.block_at(i).reference();
            if x.authority == authority && x.round == round && flags[i] {
                r = match r {
                    Some(y) => if y.digest <= x.digest {
                        Some(y)
                    } else {
                        Some(x)
                    },
                    None => Some(x),
                };
            }
            i += 1;
        }
        r
    }

    /// For every stored block of `authority` in `round`, whether a quorum
    /// votes for it.
    fn supported_flags(&self, store: &BlockStore, authority: AuthorityIndex, round: RoundNumber) -> (flags:
        Vec<bool>)
        ensures
            flags@.len() == store@.len(),
            forall|i: int|
                0 <= i < store@.len() && is_candidate(
                    (#[trigger] store@[i]).block.reference,
                    authority,
                    round,
                ) ==> flags@[i] == supported(store@, self.spec_stakes(), store@[i].block.reference),
    {
        let mut flags: Vec<bool> = Vec::new();
        let mut i: usize = 0;
        while i < store.len()
            invariant
                i <= store@.len(),
                flags@.len() == i,
                forall|k: int|
                    0 <= k < i && is_candidate(
                        (#[trigger] store@[k]).block.reference,
                        authority,
                        round,
                    ) ==> flags@[k] == supported(
                        store@,
                        self.spec_stakes(),
                        store@[k].block.reference,
                    ),
            decreases store@.len() - i,
        {
            let x = *store.block_at(i).reference();
            if x.authority == authority && x.round == round {
                let voters = Self::support(store, &x);
                flags.push(self.committee.is_quorum(&voters));
            } else {
                flags.push(false);
            }
            i += 1;
        }
        flags
    }

    /// The leader block that wave `wave` commits, if it commits one.
    fn commit_wave(&self, store: &BlockStore, wave: u64, anchor: Option<BlockReference>) -> (r:
        Option<BlockReference>)
        requires
            store.inv(),
            wave * self.spec_period() <= u64::MAX,
            anchor matches Some(top) ==> has_block(store@, top),
        ensures
            r == wave_commit(store@, self.spec_stakes(), self.spec_period(), wave as int, anchor),
    {
        let leader = self.committee.elect_leader(wave);
        let round: RoundNumber = wave * self.period;
        match anchor {
            None => {
                let flags = self.supported_flags(store, leader, round);
                Self::best(
                    store,
                    leader,
                    round,
                    &flags,
                    Ghost(|x: BlockReference| supported(store@, self.spec_stakes(), x)),
                )
            },
            Some(top) => {
                let at = store.find(&top).unwrap();
                let flags = ancestors(store, at);
                Self::best(store, leader, round, &flags, Ghost(|x: BlockReference| linked(store@, top, x)))
            },
        }
    }

    /// The leader blocks that `store` commits after round
    /// `last_commit_round`, in the order of their rounds.
    pub fn try_commit(&self, store: &BlockStore, last_commit_round: RoundNumber) -> (r: Vec<
        StatementBlock,
    >)
        requires
            store.inv(),
            self.spec_period() > 0,
        ensures
            crate::consensus::references_of(blocks_view(r@)) == committed_leaders(
                store@,
                self.spec_stakes(),
                self.spec_period(),
                last_commit_round,
            ),
            forall|k: int|
                0 <= k < r@.len() ==> has_block(store@, (#[trigger] r@[k])@.reference)
                    && crate::block_store::block_of(store@, r@[k]@.reference) == r@[k]@,
            forall|k: int| 0 <= k < r@.len() ==> (#[trigger] r@[k])@.reference.round > last_commit_round,
            forall|i: int, j: int|
                0 <= i < j < r@.len() ==> (#[trigger] r@[i])@.reference.round < (
                #[trigger] r@[j])@.reference.round,
    {
        let ghost s = store@;
        let ghost stakes = self.spec_stakes();
        let period: u64 = self.period;
        let highest: RoundNumber = store.highest_round();
        proof {
            lemma_max_round(s, s.len() as int);
        }
        let top: u64 = highest / period;
        let floor: u64 = last_commit_round / period;
        let ghost goal = committed_leaders(s, stakes, period, last_commit_round);
        let mut leaders: Vec<BlockReference> = Vec::new();
        let mut anchor: Option<BlockReference> = None;
        let mut wave: u64 = top;
        proof {
            assert(top * period <= highest) by (nonlinear_arith)
                requires
                    period > 0,
                    top == highest / period,
            ;
            assert(commits_down(s, stakes, period, wave as int, floor as int, anchor) + leaders@
                =~= goal);
        }
        while wave > floor
            invariant
                wave <= top,
                period == self.spec_period(),
                period > 0,
                top * period <= u64::MAX,
                s == store@,
                stakes == self.spec_stakes(),
                store.inv(),
                anchor matches Some(a) ==> has_block(s, a),
                commits_down(s, stakes, period, wave as int, floor as int, anchor) + leaders@
                    == goal,
            decreases wave,
        {
            proof {
                assert(wave * period <= top * period) by (nonlinear_arith)
                    requires
                        wave <= top,
                        period > 0,
                ;
            }
            let ghost before = leaders@;
            let pick = self.commit_wave(store, wave, anchor);
            proof {
                let leader = leader_of(stakes, wave);
                let round = (wave * period) as u64;
                match anchor {
                    None => lemma_best_candidate(
                        s,
                        leader,
                        round,
                        |x: BlockReference| supported(s, stakes, x),
                        s.len() as int,
                    ),
                    Some(a) => lemma_best_candidate(
                        s,
                        leader,
                        round,
                        |x: BlockReference| linked(s, a, x),
                        s.len() as int,
                    ),
                }
            }
            match pick {
                Some(x) => {
                    leaders.insert(0, x);
                    anchor = Some(x);
                    assert(leaders@ =~= seq![x] + before);
                },
                None => {},
            }
            wave -= 1;
            proof {
                let below = commits_down(s, stakes, period, wave as int, floor as int, anchor);
                assert(below + leaders@ =~= goal);
            }
        }
        proof {
            assert(leaders@ =~= goal);
            assert(floor * period <= last_commit_round && last_commit_round < (floor + 1) * period)
                by (nonlinear_arith)
                requires
                    period > 0,
                    floor == last_commit_round / period,
            ;
            lemma_commits_down(s, stakes, period, top as int, floor as int, None);
        }
        let mut r: Vec<StatementBlock> = Vec::new();
        let mut k: usize = 0;
        while k < leaders.len()
            invariant
                k <= leaders.len(),
                s == store@,
                store.inv(),
                r@.len() == k,
                forall|j: int| 0 <= j < leaders@.len() ==> has_block(s, #[trigger] leaders@[j]),
                forall|j: int|
                    0 <= j < k ==> (#[trigger] r@[j])@ == crate::block_store::block_of(
                        s,
                        leaders@[j],
                    ) && r@[j]@.reference == leaders@[j],
            decreases leaders.len() - k,
        {
            let block = store.get_block(leaders[k]).unwrap();
            proof {
                assert(has_block(s, leaders@[k as int]));
            }
            r.push(block);
            k += 1;
        }
        proof {
            assert(crate::consensus::references_of(blocks_view(r@)) =~= leaders@);
            assert forall|k: int| 0 <= k < r@.len() implies (#[trigger] r@[k])@.reference.round
                > last_commit_round by {
                assert(leaders@[k].round > floor * period);
                assert(leaders@[k].round as int % period as int == 0);
                assert(leaders@[k].round >= (floor + 1) * period) by (nonlinear_arith)
                    requires
                        period > 0,
                        leaders@[k].round > floor * period,
                        leaders@[k].round as int % period as int == 0,
                ;
            }
        }
        r
    }
}

/// Whether two stores hold the same blocks, in whatever order.
pub open spec fn same_contents(a: Seq<StoredView>, b: Seq<StoredView>) -> bool {
    forall|r: BlockReference|
        #![trigger has_block(a, r)]
        #![trigger has_block(b, r)]
        has_block(a, r) == has_block(b, r) && (has_block(a, r) ==> crate::block_store::block_of(
            a,
            r,
        ) == crate::block_store::block_of(b, r))
}

/// What a block builds on depends on the blocks stored, not on their order.
pub proof fn lemma_linked_same(
    a: Seq<StoredView>,
    b: Seq<StoredView>,
    from: BlockReference,
    to: BlockReference,
)
    requires
        same_contents(a, b),
    ensures
        linked(a, from, to) == linked(b, from, to),
    decreases from.round, 1int, 0int,
{
    if from != to && has_block(a, from) {
        assert(has_block(b, from));
        let includes = crate::block_store::block_of(a, from).includes;
        lemma_any_linked_same(a, b, includes, includes.len() as int, from.round, to);
    }
}

/// See [`lemma_linked_same`].
pub proof fn lemma_any_linked_same(
    a: Seq<StoredView>,
    b: Seq<StoredView>,
    includes: Seq<BlockReference>,
    n: int,
    bound: RoundNumber,
    to: BlockReference,
)
    requires
        same_contents(a, b),
    ensures
        crate::dag::any_linked(a, includes, n, bound, to) == crate::dag::any_linked(
            b,
            includes,
            n,
            bound,
            to,
        ),
    decreases bound, 0int, n,
{
    if n > 0 {
        lemma_any_linked_same(a, b, includes, n - 1, bound, to);
        if includes[n - 1].round < bound {
            lemma_linked_same(a, b, includes[n - 1], to);
        }
    }
}

/// Who votes for a leader depends on the blocks stored, not on their order.
pub proof fn lemma_supporters_same(a: Seq<StoredView>, b: Seq<StoredView>, leader: BlockReference)
    requires
        store_wf(a),
        store_wf(b),
        same_contents(a, b),
    ensures
        supporters(a, leader) == supporters(b, leader),
{
    assert forall|x: AuthorityIndex| supporters(a, leader).contains(x) implies supporters(
        b,
        leader,
    ).contains(x) by {
        let i = choose|i: int|
            0 <= i < a.len() && supports(#[trigger] a[i], leader) && a[i].block.reference.authority
                == x;
        lemma_index_unique(a, i);
        let r = a[i].block.reference;
        assert(has_block(b, r));
        let j = index_of(b, r);
        lemma_index_unique(b, j);
        assert(supports(b[j], leader));
    }
    assert forall|x: AuthorityIndex| supporters(b, leader).contains(x) implies supporters(
        a,
        leader,
    ).contains(x) by {
        let i = choose|i: int|
            0 <= i < b.len() && supports(#[trigger] b[i], leader) && b[i].block.reference.authority
                == x;
        lemma_index_unique(b, i);
        let r = b[i].block.reference;
        assert(has_block(a, r));
        let j = index_of(a, r);
        lemma_index_unique(a, j);
        assert(supports(a[j], leader));
    }
    assert(supporters(a, leader) =~= supporters(b, leader));
}

/// The candidate picked depends on the blocks stored, not on their order.
pub proof fn lemma_best_same(
    a: Seq<StoredView>,
    b: Seq<StoredView>,
    authority: AuthorityIndex,
    round: RoundNumber,
    ok_a: spec_fn(BlockReference) -> bool,
    ok_b: spec_fn(BlockReference) -> bool,
)
    requires
        same_contents(a, b),
        forall|x: BlockReference| #[trigger] ok_a(x) == ok_b(x),
    ensures
        best_candidate(a, authority, round, ok_a, a.len() as int) == best_candidate(
            b,
            authority,
            round,
            ok_b,
            b.len() as int,
        ),
{
    lemma_best_candidate(a, authority, round, ok_a, a.len() as int);
    lemma_best_candidate(b, authority, round, ok_b, b.len() as int);
    let pa = best_candidate(a, authority, round, ok_a, a.len() as int);
    let pb = best_candidate(b, authority, round, ok_b, b.len() as int);
    match pa {
        Some(x) => {
            let i = choose|i: int| 0 <= i < a.len() && (#[trigger] a[i]).block.reference == x;
            assert(has_block(a, x));
            assert(has_block(b, x));
            let j = index_of(b, x);
            assert(is_candidate(b[j].block.reference, authority, round) && ok_b(
                b[j].block.reference,
            ));
            let y = pb->Some_0;
            let m = choose|m: int| 0 <= m < b.len() && (#[trigger] b[m]).block.reference == y;
            assert(has_block(b, y));
            assert(has_block(a, y));
            let k = index_of(a, y);
            assert(is_candidate(a[k].block.reference, authority, round) && ok_a(
                a[k].block.reference,
            ));
            assert(x.digest <= a[k].block.reference.digest);
            assert(y.digest <= b[j].block.reference.digest);
        },
        None => {
            if let Some(y) = pb {
                let m = choose|m: int| 0 <= m < b.len() && (#[trigger] b[m]).block.reference == y;
                assert(has_block(b, y));
                assert(has_block(a, y));
                let k = index_of(a, y);
                assert(is_candidate(a[k].block.reference, authority, round) && ok_a(
                    a[k].block.reference,
                ));
            }
        },
    }
}

/// What a wave commits depends on the blocks stored, not on their order.
pub proof fn lemma_commits_same(
    a: Seq<StoredView>,
    b: Seq<StoredView>,
    stakes: Seq<u64>,
    period: u64,
    wave: int,
    floor: int,
    anchor: Option<BlockReference>,
)
    requires
        store_wf(a),
        store_wf(b),
        same_contents(a, b),
    ensures
        commits_down(a, stakes, period, wave, floor, anchor) == commits_down(
            b,
            stakes,
            period,
            wave,
            floor,
            anchor,
        ),
    decreases wave - floor,
{
    if wave > floor {
        let leader = leader_of(stakes, wave as u64);
        let round = (wave * period) as u64;
        match anchor {
            None => {
                let ok_a = |x: BlockReference| supported(a, stakes, x);
                let ok_b = |x: BlockReference| supported(b, stakes, x);
                assert forall|x: BlockReference| #[trigger] ok_a(x) == ok_b(x) by {
                    lemma_supporters_same(a, b, x);
                }
                lemma_best_same(a, b, leader, round, ok_a, ok_b);
            },
            Some(top) => {
                let ok_a = |x: BlockReference| linked(a, top, x);
                let ok_b = |x: BlockReference| linked(b, top, x);
                assert forall|x: BlockReference| #[trigger] ok_a(x) == ok_b(x) by {
                    lemma_linked_same(a, b, top, x);
                }
                lemma_best_same(a, b, leader, round, ok_a, ok_b);
            },
        }
        let pick = wave_commit(a, stakes, period, wave, anchor);
        assert(pick == wave_commit(b, stakes, period, wave, anchor));
        let next = if pick is Some {
            pick
        } else {
            anchor
        };
        lemma_commits_same(a, b, stakes, period, wave - 1, floor, next);
    }
}

/// The highest round depends on the blocks stored, not on their order.
pub proof fn lemma_max_round_same(a: Seq<StoredView>, b: Seq<StoredView>)
    requires
        same_contents(a, b),
    ensures
        max_round(a, a.len() as int) == max_round(b, b.len() as int),
{
    lemma_max_round(a, a.len() as int);
    lemma_max_round(b, b.len() as int);
    if a.len() > 0 {
        let i = choose|i: int|
            0 <= i < a.len() && (#[trigger] a[i]).block.reference.round == max_round(
                a,
                a.len() as int,
            );
        assert(has_block(a, a[i].block.reference));
        assert(has_block(b, a[i].block.reference));
        let j = index_of(b, a[i].block.reference);
        assert(b[j].block.reference.round <= max_round(b, b.len() as int));
    }
    if b.len() > 0 {
        let i = choose|i: int|
            0 <= i < b.len() && (#[trigger] b[i]).block.reference.round == max_round(
                b,
                b.len() as int,
            );
        assert(has_block(b, b[i].block.reference));
        assert(has_block(a, b[i].block.reference));
        let j = index_of(a, b[i].block.reference);
        assert(a[j].block.reference.round <= max_round(a, a.len() as int));
    }
}

/// Commit determinism: two nodes whose stores hold the same blocks, in
/// whatever order they arrived, commit the same leaders after the same
/// round.
pub proof fn lemma_commit_determinism(
    a: Seq<StoredView>,
    b: Seq<StoredView>,
    stakes: Seq<u64>,
    period: u64,
    last_commit_round: RoundNumber,
)
    requires
        store_wf(a),
        store_wf(b),
        same_contents(a, b),
    ensures
        committed_leaders(a, stakes, period, last_commit_round) == committed_leaders(
            b,
            stakes,
            period,
            last_commit_round,
        ),
{
    lemma_max_round_same(a, b);
    lemma_commits_same(
        a,
        b,
        stakes,
        period,
        max_round(a, a.len() as int) as int / period as int,
        last_commit_round as int / period as int,
        None,
    );
}

/// Every leader committed after a round is a stored block of a later round,
/// and the rounds of the leaders go up.
pub proof fn lemma_committed_leaders(
    s: Seq<StoredView>,
    stakes: Seq<u64>,
    period: u64,
    last_commit_round: RoundNumber,
)
    requires
        period > 0,
    ensures
        forall|k: int|
            0 <= k < committed_leaders(s, stakes, period, last_commit_round).len() ==> {
                let x = #[trigger] committed_leaders(s, stakes, period, last_commit_round)[k];
                has_block(s, x) && x.round > last_commit_round
            },
        forall|i: int, j: int|
            0 <= i < j < committed_leaders(s, stakes, period, last_commit_round).len()
                ==> (#[trigger] committed_leaders(s, stakes, period, last_commit_round)[i]).round
                < (#[trigger] committed_leaders(s, stakes, period, last_commit_round)[j]).round,
{
    let top = max_round(s, s.len() as int) as int / period as int;
    let floor = last_commit_round as int / period as int;
    let highest = max_round(s, s.len() as int);
    assert(top * period <= highest) by (nonlinear_arith)
        requires
            period > 0,
            top == highest as int / period as int,
    ;
    assert(floor * period <= last_commit_round && last_commit_round < (floor + 1) * period
        && floor >= 0) by (nonlinear_arith)
        requires
            period > 0,
            floor == last_commit_round as int / period as int,
    ;
    lemma_commits_down(s, stakes, period, top, floor, None);
    let all = committed_leaders(s, stakes, period, last_commit_round);
    assert forall|k: int| 0 <= k < all.len() implies {
        let x = #[trigger] all[k];
        has_block(s, x) && x.round > last_commit_round
    } by {
        let x = all[k];
        assert(x.round >= (floor + 1) * period) by (nonlinear_arith)
            requires
                period > 0,
                x.round > floor * period,
                x.round as int % period as int == 0,
        ;
    }
}

/// Commit monotonicity: a leader committed by one run of the commit rule is
/// not committed again by a later run, which starts after the round of the
/// last leader committed, whatever was stored in between.
pub proof fn lemma_no_leader_twice(
    first: Seq<StoredView>,
    second: Seq<StoredView>,
    stakes: Seq<u64>,
    period: u64,
    last_commit_round: RoundNumber,
    later_commit_round: RoundNumber,
)
    requires
        period > 0,
        committed_leaders(first, stakes, period, last_commit_round).len() > 0 ==> later_commit_round
            >= committed_leaders(first, stakes, period, last_commit_round).last().round,
    ensures
        forall|i: int, j: int|
            0 <= i < committed_leaders(first, stakes, period, last_commit_round).len() && 0 <= j
                < committed_leaders(second, stakes, period, later_commit_round).len()
                ==> #[trigger] committed_leaders(first, stakes, period, last_commit_round)[i]
                != #[trigger] committed_leaders(second, stakes, period, later_commit_round)[j],
{
    lemma_committed_leaders(first, stakes, period, last_commit_round);
    lemma_committed_leaders(second, stakes, period, later_commit_round);
    let a = committed_leaders(first, stakes, period, last_commit_round);
    let b = committed_leaders(second, stakes, period, later_commit_round);
    assert forall|i: int, j: int| 0 <= i < a.len() && 0 <= j < b.len() implies #[trigger] a[i]
        != #[trigger] b[j] by {
        if i < a.len() - 1 {
            assert(a[i].round < a[a.len() - 1].round);
        }
        assert(a[i].round <= later_commit_round);
        assert(b[j].round > later_commit_round);
    }
}

} // verus!
