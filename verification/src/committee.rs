//! The committee: a fixed, ordered list of authorities with their stake, the
//! thresholds derived from it, leader election and the genesis blocks.

use crate::types::{AuthorityIndex, BlockReference, BlockView, RoundNumber, StatementBlock};
use vstd::prelude::*;

verus! {

/// Sum of the stake of the authorities below `n` that belong to `members`.
pub open spec fn stake_sum(stakes: Seq<u64>, members: Set<AuthorityIndex>, n: int) -> nat
    decreases n,
{
    if n <= 0 {
        0
    } else {
        let rest = stake_sum(stakes, members, n - 1);
        if members.contains((n - 1) as u64) {
            rest + stakes[n - 1] as nat
        } else {
            rest
        }
    }
}

/// Sum of the stake of the first `n` authorities.
pub open spec fn stake_total(stakes: Seq<u64>, n: int) -> nat
    decreases n,
{
    if n <= 0 {
        0
    } else {
        stake_total(stakes, n - 1) + stakes[n - 1] as nat
    }
}

/// A set of authorities never holds more stake than all of them together.
pub proof fn lemma_stake_sum_bounded(stakes: Seq<u64>, members: Set<AuthorityIndex>, n: int)
    ensures
        stake_sum(stakes, members, n) <= stake_total(stakes, n),
    decreases n,
{
    if n > 0 {
        lemma_stake_sum_bounded(stakes, members, n - 1);
    }
}

/// The stake of the first authorities is part of the stake of more of them.
pub proof fn lemma_stake_total_grows(stakes: Seq<u64>, m: int, n: int)
    requires
        m <= n,
    ensures
        stake_total(stakes, m) <= stake_total(stakes, n),
    decreases n - m,
{
    if m < n {
        lemma_stake_total_grows(stakes, m, n - 1);
    }
}

/// A larger set of authorities holds at least as much stake.
pub proof fn lemma_stake_sum_monotone(
    stakes: Seq<u64>,
    small: Set<AuthorityIndex>,
    large: Set<AuthorityIndex>,
    n: int,
)
    requires
        small.subset_of(large),
    ensures
        stake_sum(stakes, small, n) <= stake_sum(stakes, large, n),
    decreases n,
{
    if n > 0 {
        lemma_stake_sum_monotone(stakes, small, large, n - 1);
    }
}

/// The empty set holds no stake.
pub proof fn lemma_stake_sum_empty(stakes: Seq<u64>, n: int)
    ensures
        stake_sum(stakes, Set::empty(), n) == 0,
    decreases n,
{
    if n > 0 {
        lemma_stake_sum_empty(stakes, n - 1);
    }
}

/// A finite set of authorities, kept as the list of its members.
#[derive(Debug)]
pub struct AuthoritySet {
    members: Vec<AuthorityIndex>,
}

impl View for AuthoritySet {
    type V = Set<AuthorityIndex>;

    closed spec fn view(&self) -> Set<AuthorityIndex> {
        self.members@.to_set()
    }
}

impl AuthoritySet {
    pub fn new() -> (r: Self)
        ensures
            r@ == Set::<AuthorityIndex>::empty(),
    {
        let r = AuthoritySet { members: Vec::new() };
        assert(r.members@.to_set() =~= Set::empty());
        r
    }

    pub fn contains(&self, authority: AuthorityIndex) -> (r: bool)
        ensures
            r == self@.contains(authority),
    {
        let mut i: usize = 0;
        while i < self.members.len()
            invariant
                i <= self.members.len(),
                forall|j: int| 0 <= j < i ==> self.members[j] != authority,
            decreases self.members.len() - i,
        {
            if self.members[i] == authority {
                return true;
            }
            i += 1;
        }
        false
    }

    /// Adds `authority`; tells whether it was new to the set.
    pub fn insert(&mut self, authority: AuthorityIndex) -> (added: bool)
        ensures
            final(self)@ == old(self)@.insert(authority),
            added == !old(self)@.contains(authority),
    {
        if self.contains(authority) {
            assert(self@.insert(authority) =~= self@);
            false
        } else {
            self.members.push(authority);
            assert(self.members@.to_set() =~= old(self).members@.to_set().insert(authority)) by {
                let before = old(self).members@;
                let after = self.members@;
                assert forall|a: AuthorityIndex| after.contains(a) == (before.contains(a) || a
                    == authority) by {
                    if before.contains(a) {
                        let k = choose|k: int| 0 <= k < before.len() && before[k] == a;
                        assert(after[k] == a);
                    }
                    if a == authority {
                        assert(after[before.len() as int] == a);
                    }
                }
            }
            true
        }
    }

    /// The members, in the order in which they joined.
    pub closed spec fn spec_members(&self) -> Seq<AuthorityIndex> {
        self.members@
    }

    /// The list of members holds the members.
    pub proof fn lemma_members(&self)
        ensures
            self.spec_members().to_set() == self@,
    {
    }

    /// The members, in the order in which they joined.
    pub fn members(&self) -> (r: &Vec<AuthorityIndex>)
        ensures
            r@ == self.spec_members(),
            r@.to_set() == self@,
    {
        &self.members
    }
}

impl Clone for AuthoritySet {
    fn clone(&self) -> (r: Self)
        ensures
            r@ == self@,
    {
        let members = self.members.clone();
        assert(members@ =~= self.members@);
        AuthoritySet { members }
    }
}

/// The authorities of one epoch, by index, each with its stake.
#[derive(Debug)]
pub struct Committee {
    stakes: Vec<u64>,
    total: u64,
}

impl View for Committee {
    type V = Seq<u64>;

    closed spec fn view(&self) -> Seq<u64> {
        self.stakes@
    }
}

impl Clone for Committee {
    fn clone(&self) -> (r: Self)
        ensures
            r@ == self@,
    {
        proof {
            use_type_invariant(self);
        }
        let stakes = self.stakes.clone();
        assert(stakes@ =~= self.stakes@);
        Committee { stakes, total: self.total }
    }
}

/// Smallest stake that makes a quorum of `total`: more than two thirds.
pub open spec fn quorum_of(total: nat) -> nat {
    2 * total / 3 + 1
}

/// Smallest stake that holds at least one honest authority: more than one third.
pub open spec fn validity_of(total: nat) -> nat {
    total / 3 + 1
}

/// Whether the members of `set` hold a quorum of the stake in `stakes`.
pub open spec fn is_quorum_of(stakes: Seq<u64>, set: Set<AuthorityIndex>) -> bool {
    stake_sum(stakes, set, stakes.len() as int) >= quorum_of(
        stake_total(stakes, stakes.len() as int),
    )
}

/// The authority that leads wave `wave` among as many as `stakes` lists:
/// they take turns.
pub open spec fn leader_of(stakes: Seq<u64>, wave: u64) -> AuthorityIndex {
    (wave as int % stakes.len() as int) as u64
}

/// A quorum stays one when authorities join.
pub proof fn lemma_quorum_monotone(
    stakes: Seq<u64>,
    small: Set<AuthorityIndex>,
    large: Set<AuthorityIndex>,
)
    requires
        small.subset_of(large),
        is_quorum_of(stakes, small),
    ensures
        is_quorum_of(stakes, large),
{
    lemma_stake_sum_monotone(stakes, small, large, stakes.len() as int);
}

/// Nobody is no quorum.
pub proof fn lemma_empty_no_quorum(stakes: Seq<u64>)
    ensures
        !is_quorum_of(stakes, Set::empty()),
{
    lemma_stake_sum_empty(stakes, stakes.len() as int);
}

impl Committee {
    #[verifier::type_invariant]
    spec fn sound(self) -> bool {
        &&& self.stakes.len() > 0
        &&& self.total == stake_total(self.stakes@, self.stakes.len() as int)
    }

    /// Stake of all authorities together.
    pub open spec fn spec_total_stake(&self) -> nat {
        stake_total(self@, self@.len() as int)
    }

    /// Stake held by the members of `set`.
    pub open spec fn spec_stake_of(&self, set: Set<AuthorityIndex>) -> nat {
        stake_sum(self@, set, self@.len() as int)
    }

    /// Stake needed for a quorum.
    pub open spec fn spec_quorum_threshold(&self) -> nat {
        quorum_of(self.spec_total_stake())
    }

    /// Whether the members of `set` form a quorum.
    pub open spec fn spec_is_quorum(&self, set: Set<AuthorityIndex>) -> bool {
        is_quorum_of(self@, set)
    }

    /// The authority that leads wave `wave`: they take turns.
    pub open spec fn spec_elect_leader(&self, wave: u64) -> AuthorityIndex {
        leader_of(self@, wave)
    }

    /// A committee with the given stake per authority. There is none without
    /// authorities, nor where the total stake does not fit 64 bits.
    pub fn new(stakes: Vec<u64>) -> (r: Option<Self>)
        ensures
            r is Some <==> stakes.len() > 0 && stake_total(stakes@, stakes.len() as int)
                <= u64::MAX,
            r matches Some(c) ==> c@ == stakes@,
    {
        if stakes.len() == 0 {
            return None;
        }
        let mut total: u64 = 0;
        let mut i: usize = 0;
        while i < stakes.len()
            invariant
                i <= stakes.len(),
                total == stake_total(stakes@, i as int),
            decreases stakes.len() - i,
        {
            match total.checked_add(stakes[i]) {
                Some(t) => {
                    total = t;
                },
                None => {
                    proof {
                        lemma_stake_total_grows(stakes@, i + 1, stakes.len() as int);
                    }
                    return None;
                },
            }
            i += 1;
        }
        Some(Committee { stakes, total })
    }

    /// A committee of `n` authorities with one unit of stake each.
    pub fn new_test(n: usize) -> (r: Option<Self>)
        ensures
            r is Some <==> n > 0,
            r matches Some(c) ==> c@ == Seq::new(n as nat, |i: int| 1u64),
    {
        let mut stakes: Vec<u64> = Vec::new();
        let mut i: usize = 0;
        while i < n
            invariant
                i <= n,
                stakes@ == Seq::new(i as nat, |i: int| 1u64),
                stake_total(stakes@, i as int) == i,
            decreases n - i,
        {
            let ghost before = stakes@;
            stakes.push(1);
            i += 1;
            proof {
                assert(stakes@ =~= Seq::new(i as nat, |i: int| 1u64));
                lemma_stake_total_prefix(before, stakes@, i - 1);
            }
        }
        Committee::new(stakes)
    }

    /// Number of authorities; never zero.
    pub fn len(&self) -> (r: usize)
        ensures
            r == self@.len(),
            r > 0,
    {
        proof {
            use_type_invariant(self);
        }
        self.stakes.len()
    }

    pub fn known_authority(&self, authority: AuthorityIndex) -> (r: bool)
        ensures
            r == (authority < self@.len()),
    {
        authority < self.stakes.len() as u64
    }

    /// Stake of one authority; nothing for an index outside the committee.
    pub fn get_stake(&self, authority: AuthorityIndex) -> (r: Option<u64>)
        ensures
            r == if authority < self@.len() {
                Some(self@[authority as int])
            } else {
                None
            },
    {
        if authority < self.stakes.len() as u64 {
            Some(self.stakes[authority as usize])
        } else {
            None
        }
    }

    pub fn total_stake(&self) -> (r: u64)
        ensures
            r == self.spec_total_stake(),
    {
        proof {
            use_type_invariant(self);
        }
        self.total
    }

    pub fn quorum_threshold(&self) -> (r: u64)
        ensures
            r == self.spec_quorum_threshold(),
    {
        proof {
            use_type_invariant(self);
        }
        let wide: u128 = self.total as u128 * 2 / 3 + 1;
        wide as u64
    }

    pub fn validity_threshold(&self) -> (r: u64)
        ensures
            r == validity_of(self.spec_total_stake()),
    {
        proof {
            use_type_invariant(self);
        }
        let wide: u128 = self.total as u128 / 3 + 1;
        wide as u64
    }

    /// Stake held by the members of `set`; members outside the committee hold none.
    pub fn stake_of(&self, set: &AuthoritySet) -> (r: u64)
        ensures
            r == self.spec_stake_of(set@),
    {
        proof {
            use_type_invariant(self);
        }
        let mut sum: u64 = 0;
        let mut i: usize = 0;
        while i < self.stakes.len()
            invariant
                i <= self.stakes.len(),
                sum == stake_sum(self.stakes@, set@, i as int),
                self.total == stake_total(self.stakes@, self.stakes.len() as int),
            decreases self.stakes.len() - i,
        {
            if set.contains(i as u64) {
                proof {
                    lemma_stake_sum_bounded(self.stakes@, set@, i + 1);
                    lemma_stake_total_grows(self.stakes@, i + 1, self.stakes.len() as int);
                }
                sum = sum + self.stakes[i];
            }
            i += 1;
        }
        sum
    }

    /// Whether the members of `set` form a quorum.
    pub fn is_quorum(&self, set: &AuthoritySet) -> (r: bool)
        ensures
            r == self.spec_is_quorum(set@),
    {
        self.stake_of(set) >= self.quorum_threshold()
    }

    /// The authority that leads wave `wave`.
    pub fn elect_leader(&self, wave: u64) -> (r: AuthorityIndex)
        ensures
            r == self.spec_elect_leader(wave),
            r < self@.len(),
    {
        proof {
            use_type_invariant(self);
        }
        wave % (self.stakes.len() as u64)
    }

    /// The genesis block of `authority`, and those of all other authorities
    /// in the order of their index.
    pub fn genesis_blocks(&self, authority: AuthorityIndex) -> (r: (
        StatementBlock,
        Vec<StatementBlock>,
    ))
        ensures
            r.0@ == genesis_view(authority),
            crate::types::blocks_view(r.1@) == others_genesis(authority, self@.len() as int),
    {
        let own = StatementBlock::new_genesis(authority);
        let mut others: Vec<StatementBlock> = Vec::new();
        let mut i: usize = 0;
        while i < self.stakes.len()
            invariant
                i <= self.stakes.len(),
                crate::types::blocks_view(others@) == others_genesis(authority, i as int),
            decreases self.stakes.len() - i,
        {
            if i as u64 != authority {
                let ghost before = others@;
                others.push(StatementBlock::new_genesis(i as u64));
                assert(crate::types::blocks_view(others@) =~= crate::types::blocks_view(
                    before,
                ).push(genesis_view(i as u64)));
            }
            i += 1;
        }
        (own, others)
    }
}

/// Adding an authority at the end leaves the stake of the earlier ones as it was.
pub proof fn lemma_stake_total_prefix(before: Seq<u64>, after: Seq<u64>, n: int)
    requires
        0 <= n <= before.len(),
        n <= after.len(),
        forall|i: int| 0 <= i < n ==> before[i] == after[i],
    ensures
        stake_total(before, n) == stake_total(after, n),
    decreases n,
{
    if n > 0 {
        lemma_stake_total_prefix(before, after, n - 1);
    }
}

/// Value of the genesis block of `authority`.
pub open spec fn genesis_view(authority: AuthorityIndex) -> BlockView {
    BlockView {
        reference: BlockReference { authority, round: 0, digest: 0 },
        includes: Seq::empty(),
        statements: Seq::empty(),
        time_ns: 0,
    }
}

/// Genesis blocks of the authorities below `n` other than `authority`.
pub open spec fn others_genesis(authority: AuthorityIndex, n: int) -> Seq<BlockView>
    decreases n,
{
    if n <= 0 {
        Seq::empty()
    } else if (n - 1) as u64 == authority {
        others_genesis(authority, n - 1)
    } else {
        others_genesis(authority, n - 1).push(genesis_view((n - 1) as u64))
    }
}

} // verus!
