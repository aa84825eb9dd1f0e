//! The threshold clock: the round this node is in, advanced whenever the
//! blocks seen for the current round or later ones come from a quorum.

use crate::committee::{is_quorum_of, lemma_stake_sum_empty, AuthoritySet, Committee};
use crate::types::{AuthorityIndex, BlockReference, BlockView, RoundNumber, StatementBlock};
use vstd::prelude::*;

verus! {

/// The authors seen for one round.
#[derive(Debug)]
pub struct RoundAuthors {
    round: RoundNumber,
    authors: AuthoritySet,
}

/// Authors recorded for `round` in the entries of `v` from index `from` on.
pub closed spec fn seen_in(v: Seq<RoundAuthors>, round: RoundNumber, from: int) -> Set<
    AuthorityIndex,
>
    decreases v.len() - from,
{
    if from < 0 || from >= v.len() {
        Set::empty()
    } else if v[from].round == round {
        v[from].authors@
    } else {
        seen_in(v, round, from + 1)
    }
}

/// Whoever is recorded for a round is recorded in an entry for that round.
proof fn lemma_seen_witness(v: Seq<RoundAuthors>, round: RoundNumber, from: int, a: AuthorityIndex)
    requires
        0 <= from,
    ensures
        seen_in(v, round, from).contains(a) ==> exists|j: int|
            from <= j < v.len() && (#[trigger] v[j]).round == round && v[j].authors@.contains(a),
    decreases v.len() - from,
{
    if from < v.len() && v[from].round != round {
        lemma_seen_witness(v, round, from + 1, a);
    }
}

/// Whoever is in an entry is recorded for the round of that entry, as long
/// as no two entries are for one round.
proof fn lemma_seen_has(v: Seq<RoundAuthors>, i: int, from: int, a: AuthorityIndex)
    requires
        0 <= from <= i < v.len(),
        v[i].authors@.contains(a),
        forall|j: int, k: int| 0 <= j < k < v.len() ==> (#[trigger] v[j]).round != (#[trigger] v[k]).round,
    ensures
        seen_in(v, v[i].round, from).contains(a),
    decreases i - from,
{
    if from < i {
        lemma_seen_has(v, i, from + 1, a);
    }
}

proof fn lemma_seen_absent(v: Seq<RoundAuthors>, round: RoundNumber, from: int)
    requires
        0 <= from,
        forall|j: int| from <= j < v.len() ==> (#[trigger] v[j]).round != round,
    ensures
        seen_in(v, round, from) == Set::<AuthorityIndex>::empty(),
    decreases v.len() - from,
{
    if from < v.len() {
        lemma_seen_absent(v, round, from + 1);
    }
}

proof fn lemma_seen_update(
    v: Seq<RoundAuthors>,
    i: int,
    e: RoundAuthors,
    round: RoundNumber,
    from: int,
)
    requires
        0 <= from <= i < v.len(),
        e.round == v[i].round,
        forall|j: int| from <= j < i ==> (#[trigger] v[j]).round != e.round,
    ensures
        seen_in(v.update(i, e), round, from) == if round == e.round {
            e.authors@
        } else {
            seen_in(v, round, from)
        },
        round == e.round ==> seen_in(v, round, from) == v[i].authors@,
    decreases i - from,
{
    let w = v.update(i, e);
    if from < i {
        lemma_seen_update(v, i, e, round, from + 1);
        assert(w[from] == v[from]);
    } else {
        if round != e.round {
            lemma_seen_same_tail(v, w, round, from + 1);
        }
    }
}

proof fn lemma_seen_same_tail(
    v: Seq<RoundAuthors>,
    w: Seq<RoundAuthors>,
    round: RoundNumber,
    from: int,
)
    requires
        0 <= from,
        v.len() == w.len(),
        forall|j: int| from <= j < v.len() ==> v[j] == w[j],
    ensures
        seen_in(v, round, from) == seen_in(w, round, from),
    decreases v.len() - from,
{
    if from < v.len() {
        lemma_seen_same_tail(v, w, round, from + 1);
    }
}

proof fn lemma_seen_push(v: Seq<RoundAuthors>, e: RoundAuthors, round: RoundNumber, from: int)
    requires
        0 <= from <= v.len(),
        forall|j: int| from <= j < v.len() ==> (#[trigger] v[j]).round != e.round,
    ensures
        seen_in(v.push(e), round, from) == if round == e.round {
            e.authors@
        } else {
            seen_in(v, round, from)
        },
    decreases v.len() - from,
{
    let w = v.push(e);
    if from < v.len() {
        lemma_seen_push(v, e, round, from + 1);
        assert(w[from] == v[from]);
    } else {
        assert(w[from] == e);
        assert(seen_in(w, round, from + 1) == Set::<AuthorityIndex>::empty());
    }
}

/// Mathematical value of the clock.
pub struct ClockView {
    /// The round the clock is in.
    pub round: RoundNumber,
    /// For every round, the authors of the blocks seen for it.
    pub seen: Map<RoundNumber, Set<AuthorityIndex>>,
}

/// The authors of the blocks seen for round `round` or a later one.
pub open spec fn authors_from(
    seen: Map<RoundNumber, Set<AuthorityIndex>>,
    round: RoundNumber,
) -> Set<AuthorityIndex> {
    Set::new(|a: AuthorityIndex| exists|r: RoundNumber| r >= round && (#[trigger] seen[r]).contains(a))
}

/// The clock on `seen` can stand at `round` after having stood at `start`:
/// for every round passed a quorum was seen in that round or later, and for
/// the round reached none was.
pub open spec fn clock_advanced(
    stakes: Seq<u64>,
    seen: Map<RoundNumber, Set<AuthorityIndex>>,
    start: RoundNumber,
    round: RoundNumber,
) -> bool {
    &&& start <= round
    &&& forall|r: RoundNumber|
        start <= r < round ==> is_quorum_of(stakes, #[trigger] authors_from(seen, r))
    &&& round < u64::MAX ==> !is_quorum_of(stakes, authors_from(seen, round))
}

/// A clock that has seen nothing stands at round 0.
pub proof fn lemma_nothing_seen(stakes: Seq<u64>, seen: Map<RoundNumber, Set<AuthorityIndex>>)
    requires
        forall|r: RoundNumber| #[trigger] seen[r] == Set::<AuthorityIndex>::empty(),
    ensures
        clock_advanced(stakes, seen, 0, 0),
{
    assert(authors_from(seen, 0) =~= Set::empty()) by {
        assert forall|a: AuthorityIndex| !authors_from(seen, 0).contains(a) by {
            if authors_from(seen, 0).contains(a) {
                let r = choose|r: RoundNumber| r >= 0 && (#[trigger] seen[r]).contains(a);
                assert(seen[r] == Set::<AuthorityIndex>::empty());
            }
        }
    }
    crate::committee::lemma_empty_no_quorum(stakes);
}

/// The clock stands at the first round from which on no quorum was seen:
/// from every earlier round on a quorum was seen, from no later round on.
pub proof fn lemma_clock_round(
    stakes: Seq<u64>,
    seen: Map<RoundNumber, Set<AuthorityIndex>>,
    round: RoundNumber,
    other: RoundNumber,
)
    requires
        clock_advanced(stakes, seen, 0, round),
        round < u64::MAX,
    ensures
        other < round <==> is_quorum_of(stakes, authors_from(seen, other)),
{
    if other >= round && is_quorum_of(stakes, authors_from(seen, other)) {
        assert(authors_from(seen, other).subset_of(authors_from(seen, round)));
        crate::committee::lemma_quorum_monotone(
            stakes,
            authors_from(seen, other),
            authors_from(seen, round),
        );
    }
}

/// What is seen once the author of `reference` is recorded for its round.
pub open spec fn seen_with(
    seen: Map<RoundNumber, Set<AuthorityIndex>>,
    reference: BlockReference,
) -> Map<RoundNumber, Set<AuthorityIndex>> {
    seen.insert(reference.round, seen[reference.round].insert(reference.authority))
}

/// What is seen once the authors of all of `references` are recorded.
pub open spec fn seen_after(
    seen: Map<RoundNumber, Set<AuthorityIndex>>,
    references: Seq<BlockReference>,
) -> Map<RoundNumber, Set<AuthorityIndex>>
    decreases references.len(),
{
    if references.len() == 0 {
        seen
    } else {
        seen_with(seen_after(seen, references.drop_last()), references.last())
    }
}

/// A clock that stood right before a block was recorded, and then moved on
/// as far as it could, stands right for all it has seen.
pub proof fn lemma_clock_step(
    stakes: Seq<u64>,
    seen: Map<RoundNumber, Set<AuthorityIndex>>,
    reference: BlockReference,
    start: RoundNumber,
    middle: RoundNumber,
    round: RoundNumber,
)
    requires
        seen.dom() == Set::<RoundNumber>::full(),
        start <= middle,
        forall|r: RoundNumber|
            start <= r < middle ==> is_quorum_of(stakes, #[trigger] authors_from(seen, r)),
        clock_advanced(stakes, seen_with(seen, reference), middle, round),
    ensures
        clock_advanced(stakes, seen_with(seen, reference), start, round),
{
    let after = seen_with(seen, reference);
    assert forall|r: RoundNumber| start <= r < round implies is_quorum_of(
        stakes,
        #[trigger] authors_from(after, r),
    ) by {
        if r < middle {
            lemma_authors_grow(seen, reference, r);
            crate::committee::lemma_quorum_monotone(
                stakes,
                authors_from(seen, r),
                authors_from(after, r),
            );
        }
    }
}

/// The clock stands at one round only for what it has seen.
pub proof fn lemma_clock_unique(
    stakes: Seq<u64>,
    seen: Map<RoundNumber, Set<AuthorityIndex>>,
    a: RoundNumber,
    b: RoundNumber,
)
    requires
        clock_advanced(stakes, seen, 0, a),
        clock_advanced(stakes, seen, 0, b),
    ensures
        a == b,
{
    if a < b {
        assert(is_quorum_of(stakes, authors_from(seen, a)));
    }
    if b < a {
        assert(is_quorum_of(stakes, authors_from(seen, b)));
    }
}

/// Recording blocks in two runs is recording them in one.
pub proof fn lemma_seen_after_concat(
    seen: Map<RoundNumber, Set<AuthorityIndex>>,
    first: Seq<BlockReference>,
    second: Seq<BlockReference>,
)
    ensures
        seen_after(seen, first + second) == seen_after(seen_after(seen, first), second),
    decreases second.len(),
{
    if second.len() == 0 {
        assert(first + second =~= first);
    } else {
        lemma_seen_after_concat(seen, first, second.drop_last());
        assert((first + second).drop_last() =~= first + second.drop_last());
        assert((first + second).last() == second.last());
    }
}

/// Those seen from a round on are still seen once one more is recorded.
pub proof fn lemma_authors_grow(
    seen: Map<RoundNumber, Set<AuthorityIndex>>,
    reference: BlockReference,
    round: RoundNumber,
)
    requires
        seen.dom() == Set::<RoundNumber>::full(),
    ensures
        authors_from(seen, round).subset_of(authors_from(seen_with(seen, reference), round)),
{
    let after = seen_with(seen, reference);
    assert forall|a: AuthorityIndex| authors_from(seen, round).contains(a) implies authors_from(
        after,
        round,
    ).contains(a) by {
        let r = choose|r: RoundNumber| r >= round && (#[trigger] seen[r]).contains(a);
        assert(after[r].contains(a));
    }
}

/// Tracks the round of this node from the references of the blocks it sees.
#[derive(Debug)]
pub struct ThresholdClockAggregator {
    round: RoundNumber,
    highest: RoundNumber,
    seen: Vec<RoundAuthors>,
}

impl View for ThresholdClockAggregator {
    type V = ClockView;

    closed spec fn view(&self) -> ClockView {
        ClockView {
            round: self.round,
            seen: Map::new(|r: RoundNumber| true, |r: RoundNumber| seen_in(self.seen@, r, 0)),
        }
    }
}

impl ThresholdClockAggregator {
    /// What holds of every clock: no round beyond the highest one recorded
    /// has authors.
    pub closed spec fn inv(&self) -> bool {
        &&& forall|j: int|
            0 <= j < self.seen@.len() ==> (#[trigger] self.seen@[j]).round <= self.highest
        &&& forall|j: int, k: int|
            0 <= j < k < self.seen@.len() ==> (#[trigger] self.seen@[j]).round != (
            #[trigger] self.seen@[k]).round
    }

    /// Those recorded for a round are those of the entry for that round.
    proof fn lemma_seen(&self, round: RoundNumber, a: AuthorityIndex)
        ensures
            self@.seen[round].contains(a) ==> exists|j: int|
                0 <= j < self.seen@.len() && (#[trigger] self.seen@[j]).round == round
                    && self.seen@[j].authors@.contains(a),
    {
        lemma_seen_witness(self.seen@, round, 0, a);
    }

    /// Something is recorded, if only nobody, for every round.
    pub proof fn lemma_seen_total(&self)
        ensures
            self@.seen.dom() == Set::<RoundNumber>::full(),
    {
        assert(self@.seen.dom() =~= Set::<RoundNumber>::full());
    }

    /// A clock that stands at `round` and has seen nothing.
    pub fn new(round: RoundNumber) -> (r: Self)
        ensures
            r.inv(),
            r@.round == round,
            r@.seen == Map::new(
                |r: RoundNumber| true,
                |r: RoundNumber| Set::<AuthorityIndex>::empty(),
            ),
    {
        let r = ThresholdClockAggregator { round, highest: 0, seen: Vec::new() };
        assert(r@.seen =~= Map::new(
            |r: RoundNumber| true,
            |r: RoundNumber| Set::<AuthorityIndex>::empty(),
        ));
        r
    }

    /// The round the clock is in.
    pub fn get_round(&self) -> (r: RoundNumber)
        ensures
            r == self@.round,
    {
        self.round
    }

    fn find(&self, round: RoundNumber) -> (found: Option<usize>)
        ensures
            found matches Some(i) ==> i < self.seen@.len() && self.seen@[i as int].round == round
                && forall|j: int| 0 <= j < i ==> (#[trigger] self.seen@[j]).round != round,
            found is None ==> forall|j: int|
                0 <= j < self.seen@.len() ==> (#[trigger] self.seen@[j]).round != round,
    {
        let mut i: usize = 0;
        while i < self.seen.len()
            invariant
                i <= self.seen.len(),
                forall|j: int| 0 <= j < i ==> (#[trigger] self.seen@[j]).round != round,
            decreases self.seen.len() - i,
        {
            if self.seen[i].round == round {
                return Some(i);
            }
            i += 1;
        }
        None
    }

    fn record(&mut self, reference: BlockReference)
        requires
            old(self).inv(),
        ensures
            final(self).inv(),
            final(self)@.round == old(self)@.round,
            final(self)@.seen == old(self)@.seen.insert(
                reference.round,
                old(self)@.seen[reference.round].insert(reference.authority),
            ),
    {
        let ghost before = self.seen@;
        match self.find(reference.round) {
            Some(i) => {
                let mut authors = self.seen[i].authors.clone();
                authors.insert(reference.authority);
                let entry = RoundAuthors { round: reference.round, authors };
                self.seen.set(i, entry);
                proof {
                    assert forall|r: RoundNumber| #[trigger]
                        seen_in(self.seen@, r, 0) == old(self)@.seen.insert(
                            reference.round,
                            old(self)@.seen[reference.round].insert(reference.authority),
                        )[r] by {
                        lemma_seen_update(before, i as int, entry, r, 0);
                    }
                }
            },
            None => {
                let mut authors = AuthoritySet::new();
                authors.insert(reference.authority);
                let entry = RoundAuthors { round: reference.round, authors };
                self.seen.push(entry);
                if reference.round > self.highest {
                    self.highest = reference.round;
                }
                proof {
                    lemma_seen_absent(before, reference.round, 0);
                    assert forall|r: RoundNumber| #[trigger]
                        seen_in(self.seen@, r, 0) == old(self)@.seen.insert(
                            reference.round,
                            old(self)@.seen[reference.round].insert(reference.authority),
                        )[r] by {
                        lemma_seen_push(before, entry, r, 0);
                    }
                }
            },
        }
        assert(self@.seen =~= old(self)@.seen.insert(
            reference.round,
            old(self)@.seen[reference.round].insert(reference.authority),
        ));
    }

    /// Whether a quorum is recorded for `round` and later rounds together.
    fn quorum_from(&self, round: RoundNumber, committee: &Committee) -> (r: bool)
        requires
            self.inv(),
        ensures
            r == is_quorum_of(committee@, authors_from(self@.seen, round)),
            r ==> round <= self.highest,
    {
        let ghost v = self.seen@;
        let mut authors = AuthoritySet::new();
        let mut i: usize = 0;
        while i < self.seen.len()
            invariant
                i <= self.seen.len(),
                self.inv(),
                v == self.seen@,
                forall|a: AuthorityIndex|
                    authors@.contains(a) ==> authors_from(self@.seen, round).contains(a),
                forall|j: int, a: AuthorityIndex|
                    #![trigger v[j].authors@.contains(a)]
                    0 <= j < i && v[j].round >= round && v[j].authors@.contains(a)
                        ==> authors@.contains(a),
            decreases self.seen.len() - i,
        {
            if self.seen[i].round >= round {
                let members = self.seen[i].authors.members();
                let ghost entry = v[i as int];
                let mut m: usize = 0;
                while m < members.len()
                    invariant
                        m <= members.len(),
                        i < v.len(),
                        self.inv(),
                        v == self.seen@,
                        entry == v[i as int],
                        entry.round >= round,
                        members@.to_set() == entry.authors@,
                        forall|a: AuthorityIndex|
                            authors@.contains(a) ==> authors_from(self@.seen, round).contains(a),
                        forall|j: int, a: AuthorityIndex|
                            #![trigger v[j].authors@.contains(a)]
                            0 <= j < i && v[j].round >= round && v[j].authors@.contains(a)
                                ==> authors@.contains(a),
                        forall|k: int| 0 <= k < m ==> authors@.contains(#[trigger] members@[k]),
                    decreases members.len() - m,
                {
                    let a: AuthorityIndex = members[m];
                    proof {
                        assert(members@.contains(a));
                        assert(entry.authors@.contains(a));
                        lemma_seen_has(v, i as int, 0, a);
                        assert(self@.seen[entry.round].contains(a));
                    }
                    authors.insert(a);
                    m += 1;
                }
                proof {
                    assert forall|a: AuthorityIndex| entry.authors@.contains(a) implies authors@.contains(
                        a,
                    ) by {
                        let k = choose|k: int| 0 <= k < members@.len() && members@[k] == a;
                        assert(authors@.contains(members@[k]));
                    }
                }
            }
            i += 1;
        }
        proof {
            assert forall|a: AuthorityIndex| authors_from(self@.seen, round).contains(
                a,
            ) implies authors@.contains(a) by {
                let r = choose|r: RoundNumber| r >= round && (#[trigger] self@.seen[r]).contains(a);
                self.lemma_seen(r, a);
            }
            assert(authors@ =~= authors_from(self@.seen, round));
            if round > self.highest {
                assert forall|a: AuthorityIndex| !authors@.contains(a) by {
                    if authors_from(self@.seen, round).contains(a) {
                        let r = choose|r: RoundNumber|
                            r >= round && (#[trigger] self@.seen[r]).contains(a);
                        self.lemma_seen(r, a);
                    }
                }
                assert(authors@ =~= Set::empty());
                lemma_stake_sum_empty(committee@, committee@.len() as int);
            }
        }
        committee.is_quorum(&authors)
    }

    /// Records the author of `reference` for its round; then, while the
    /// authors recorded for the current round and later rounds form a
    /// quorum, moves on to the next round.
    pub fn add_block(&mut self, reference: BlockReference, committee: &Committee)
        requires
            old(self).inv(),
        ensures
            final(self).inv(),
            final(self)@.seen == seen_with(old(self)@.seen, reference),
            clock_advanced(committee@, final(self)@.seen, old(self)@.round, final(self)@.round),
            final(self)@.round >= old(self)@.round,
    {
        self.record(reference);
        let ghost start = self.round;
        let ghost seen = self@.seen;
        while self.round < u64::MAX && self.quorum_from(self.round, committee)
            invariant
                self.inv(),
                self@.seen == seen,
                start <= self.round,
                forall|r: RoundNumber|
                    start <= r < self.round ==> is_quorum_of(
                        committee@,
                        #[trigger] authors_from(seen, r),
                    ),
            decreases self.highest + 1 - self.round,
        {
            self.round = self.round + 1;
        }
    }
}

/// Authors of the references in `includes` that are of round `round`.
pub open spec fn authors_at(includes: Seq<BlockReference>, round: RoundNumber) -> Set<
    AuthorityIndex,
> {
    Set::new(
        |a: AuthorityIndex|
            exists|k: int|
                0 <= k < includes.len() && (#[trigger] includes[k]).round == round && includes[k].authority
                    == a,
    )
}

/// Whether `block` may stand in its round: past genesis, and including
/// blocks of the round before from a quorum.
pub open spec fn clock_valid(block: BlockView, committee: &Committee) -> bool {
    &&& block.reference.round > 0
    &&& committee.spec_is_quorum(authors_at(block.includes, (block.reference.round - 1) as u64))
}

/// Decides whether `block` may stand in its round.
pub fn threshold_clock_valid(block: &StatementBlock, committee: &Committee) -> (r: bool)
    ensures
        r == clock_valid(block@, committee),
{
    let round: u64 = block.round();
    if round == 0 {
        return false;
    }
    let before: u64 = round - 1;
    let includes = block.includes();
    let mut authors = AuthoritySet::new();
    let mut i: usize = 0;
    while i < includes.len()
        invariant
            i <= includes.len(),
            authors@ == authors_at(includes@.take(i as int), before),
        decreases includes.len() - i,
    {
        let ghost old_authors = authors@;
        if includes[i].round == before {
            authors.insert(includes[i].authority);
        }
        proof {
            let s = includes@.take(i as int);
            let t = includes@.take(i + 1);
            assert forall|a: AuthorityIndex| authors@.contains(a) == authors_at(t, before).contains(
                a,
            ) by {
                if old_authors.contains(a) {
                    let k = choose|k: int|
                        0 <= k < s.len() && (#[trigger] s[k]).round == before && s[k].authority
                            == a;
                    assert(t[k].round == before && t[k].authority == a);
                }
                if includes@[i as int].round == before && includes@[i as int].authority == a {
                    assert(t[i as int].round == before && t[i as int].authority == a);
                }
                if authors_at(t, before).contains(a) {
                    let k = choose|k: int|
                        0 <= k < t.len() && (#[trigger] t[k]).round == before && t[k].authority
                            == a;
                    if k < i {
                        assert(s[k].round == before && s[k].authority == a);
                    }
                }
            }
            assert(authors@ =~= authors_at(t, before));
        }
        i += 1;
    }
    assert(includes@.take(i as int) =~= includes@);
    committee.is_quorum(&authors)
}

} // verus!
