//! Plain data carried by the protocol: references, statements and blocks.

use vstd::prelude::*;

verus! {

/// Position of an authority in the committee.
pub type AuthorityIndex = u64;

/// Logical time step; round 0 holds the genesis blocks.
pub type RoundNumber = u64;

/// Opaque block identifier; 0 for genesis blocks.
pub type BlockDigest = u64;

/// Names one block: who proposed it, in which round, and its digest.
#[derive(Clone, Copy, Debug, PartialEq, Eq, Structural, Hash)]
pub struct BlockReference {
    pub authority: AuthorityIndex,
    pub round: RoundNumber,
    pub digest: BlockDigest,
}

impl BlockReference {
    pub fn new(authority: AuthorityIndex, round: RoundNumber, digest: BlockDigest) -> (r: Self)
        ensures
            r == (BlockReference { authority, round, digest }),
    {
        BlockReference { authority, round, digest }
    }

    pub fn round(&self) -> (r: RoundNumber)
        ensures
            r == self.round,
    {
        self.round
    }

    pub fn author(&self) -> (r: AuthorityIndex)
        ensures
            r == self.authority,
    {
        self.authority
    }
}

/// The two ways an authority can vote on a shared transaction.
#[derive(Clone, Copy, Debug, PartialEq, Eq, Structural, Hash)]
pub enum Vote {
    Accept,
    Reject,
}

/// Names one transaction: the block that shared it and its index in that block.
#[derive(Clone, Copy, Debug, PartialEq, Eq, Structural, Hash)]
pub struct TransactionLocator {
    pub block: BlockReference,
    pub offset: u64,
}

impl TransactionLocator {
    pub fn new(block: BlockReference, offset: u64) -> (r: Self)
        ensures
            r == (TransactionLocator { block, offset }),
    {
        TransactionLocator { block, offset }
    }
}

/// An opaque byte string submitted by a client.
#[derive(Debug)]
pub struct Transaction {
    data: Vec<u8>,
}

impl View for Transaction {
    type V = Seq<u8>;

    closed spec fn view(&self) -> Seq<u8> {
        self.data@
    }
}

impl Transaction {
    pub fn new(data: Vec<u8>) -> (r: Self)
        ensures
            r@ == data@,
    {
        Transaction { data }
    }

    pub fn data(&self) -> (r: &Vec<u8>)
        ensures
            r@ == self@,
    {
        &self.data
    }
}

impl Clone for Transaction {
    fn clone(&self) -> (r: Self)
        ensures
            r@ == self@,
    {
        let data = self.data.clone();
        assert(data@ =~= self.data@);
        Transaction { data }
    }
}

/// What a block can state: a new transaction, or a vote on an earlier one.
#[derive(Debug)]
pub enum BaseStatement {
    Share(Transaction),
    Vote(TransactionLocator, Vote),
}

/// Mathematical value of a [`BaseStatement`].
pub enum StatementView {
    Share(Seq<u8>),
    Vote(TransactionLocator, Vote),
}

impl View for BaseStatement {
    type V = StatementView;

    open spec fn view(&self) -> StatementView {
        match self {
            BaseStatement::Share(t) => StatementView::Share(t@),
            BaseStatement::Vote(l, v) => StatementView::Vote(*l, *v),
        }
    }
}

impl Clone for BaseStatement {
    fn clone(&self) -> (r: Self)
        ensures
            r@ == self@,
    {
        match self {
            BaseStatement::Share(t) => BaseStatement::Share(t.clone()),
            BaseStatement::Vote(l, v) => BaseStatement::Vote(*l, *v),
        }
    }
}

/// Values of a sequence of statements, one for one.
pub open spec fn statements_view(s: Seq<BaseStatement>) -> Seq<StatementView> {
    s.map_values(|x: BaseStatement| x@)
}

/// Copies a list of statements.
pub fn clone_statements(s: &Vec<BaseStatement>) -> (r: Vec<BaseStatement>)
    ensures
        statements_view(r@) == statements_view(s@),
{
    let mut r: Vec<BaseStatement> = Vec::new();
    let mut i: usize = 0;
    while i < s.len()
        invariant
            i <= s.len(),
            r.len() == i,
            forall|j: int| 0 <= j < i ==> r[j]@ == s[j]@,
        decreases s.len() - i,
    {
        r.push(s[i].clone());
        i += 1;
    }
    assert(statements_view(r@) =~= statements_view(s@));
    r
}

/// Copies a list of references.
pub fn clone_references(s: &Vec<BlockReference>) -> (r: Vec<BlockReference>)
    ensures
        r@ == s@,
{
    let mut r: Vec<BlockReference> = Vec::new();
    let mut i: usize = 0;
    while i < s.len()
        invariant
            i <= s.len(),
            r.len() == i,
            forall|j: int| 0 <= j < i ==> r[j] == s[j],
        decreases s.len() - i,
    {
        r.push(s[i]);
        i += 1;
    }
    assert(r@ =~= s@);
    r
}

/// Whether `list` holds `x`.
pub fn contains_reference(list: &Vec<BlockReference>, x: &BlockReference) -> (r: bool)
    ensures
        r == list@.contains(*x),
{
    let mut i: usize = 0;
    while i < list.len()
        invariant
            i <= list.len(),
            forall|k: int| 0 <= k < i ==> list@[k] != *x,
        decreases list.len() - i,
    {
        if list[i] == *x {
            return true;
        }
        i += 1;
    }
    false
}

/// Mathematical value of a [`StatementBlock`].
pub struct BlockView {
    pub reference: BlockReference,
    pub includes: Seq<BlockReference>,
    pub statements: Seq<StatementView>,
    pub time_ns: u128,
}

impl BlockView {
    /// The shape every block has.
    pub open spec fn well_formed(self) -> bool {
        includes_fit(self.reference, self.includes)
    }
}

/// Whether a reference list has the shape a block of `reference` needs: each
/// included block is of an earlier round, and past genesis the first one is
/// the author's own.
pub open spec fn includes_fit(reference: BlockReference, includes: Seq<BlockReference>) -> bool {
    &&& forall|i: int| 0 <= i < includes.len() ==> (#[trigger] includes[i]).round < reference.round
    &&& reference.round > 0 ==> includes.len() > 0 && includes[0].authority == reference.authority
}

/// A proposed block: its own reference, the blocks it builds on, what it
/// states, and when it was formed.
#[derive(Debug)]
pub struct StatementBlock {
    reference: BlockReference,
    includes: Vec<BlockReference>,
    statements: Vec<BaseStatement>,
    time_ns: u128,
}

impl View for StatementBlock {
    type V = BlockView;

    closed spec fn view(&self) -> BlockView {
        BlockView {
            reference: self.reference,
            includes: self.includes@,
            statements: statements_view(self.statements@),
            time_ns: self.time_ns,
        }
    }
}

/// Decides [`includes_fit`].
pub fn check_includes(reference: &BlockReference, includes: &Vec<BlockReference>) -> (ok: bool)
    ensures
        ok == includes_fit(*reference, includes@),
{
    if reference.round > 0 {
        if includes.len() == 0 {
            return false;
        }
        if includes[0].authority != reference.authority {
            return false;
        }
    }
    let mut i: usize = 0;
    while i < includes.len()
        invariant
            i <= includes.len(),
            forall|j: int| 0 <= j < i ==> (#[trigger] includes[j]).round < reference.round,
        decreases includes.len() - i,
    {
        if includes[i].round >= reference.round {
            assert(!(includes@[i as int].round < reference.round));
            return false;
        }
        i += 1;
    }
    true
}

impl StatementBlock {
    #[verifier::type_invariant]
    spec fn shape(self) -> bool {
        self@.well_formed()
    }

    /// Builds a block, or nothing when the parts do not have a block's shape.
    pub fn new(
        reference: BlockReference,
        includes: Vec<BlockReference>,
        statements: Vec<BaseStatement>,
        time_ns: u128,
    ) -> (r: Option<Self>)
        ensures
            r is Some <==> includes_fit(reference, includes@),
            r matches Some(b) ==> b@ == (BlockView {
                reference,
                includes: includes@,
                statements: statements_view(statements@),
                time_ns,
            }),
    {
        if check_includes(&reference, &includes) {
            Some(StatementBlock { reference, includes, statements, time_ns })
        } else {
            None
        }
    }

    /// The genesis block of `authority`: round 0, nothing included or stated.
    pub fn new_genesis(authority: AuthorityIndex) -> (r: Self)
        ensures
            r@ == (BlockView {
                reference: BlockReference { authority, round: 0, digest: 0 },
                includes: Seq::empty(),
                statements: Seq::empty(),
                time_ns: 0,
            }),
    {
        let r = StatementBlock {
            reference: BlockReference { authority, round: 0, digest: 0 },
            includes: Vec::new(),
            statements: Vec::new(),
            time_ns: 0,
        };
        assert(statements_view(r.statements@) =~= Seq::empty());
        r
    }

    pub fn reference(&self) -> (r: &BlockReference)
        ensures
            *r == self@.reference,
            self@.well_formed(),
    {
        proof {
            use_type_invariant(self);
        }
        &self.reference
    }

    pub fn round(&self) -> (r: RoundNumber)
        ensures
            r == self@.reference.round,
    {
        self.reference.round
    }

    pub fn author(&self) -> (r: AuthorityIndex)
        ensures
            r == self@.reference.authority,
    {
        self.reference.authority
    }

    pub fn includes(&self) -> (r: &Vec<BlockReference>)
        ensures
            r@ == self@.includes,
            self@.well_formed(),
    {
        proof {
            use_type_invariant(self);
        }
        &self.includes
    }

    pub fn statements(&self) -> (r: &Vec<BaseStatement>)
        ensures
            statements_view(r@) == self@.statements,
    {
        &self.statements
    }

    pub fn time_ns(&self) -> (r: u128)
        ensures
            r == self@.time_ns,
    {
        self.time_ns
    }

    /// Locators of the transactions this block shares, in block order.
    pub fn shared_transactions(&self) -> (r: Vec<TransactionLocator>)
        ensures
            r@ == shared_locators(self@),
    {
        let mut r: Vec<TransactionLocator> = Vec::new();
        let mut i: usize = 0;
        while i < self.statements.len()
            invariant
                i <= self.statements.len(),
                r@ == shared_locators_upto(self@, i as int),
            decreases self.statements.len() - i,
        {
            if let BaseStatement::Share(_) = &self.statements[i] {
                r.push(TransactionLocator { block: self.reference, offset: i as u64 });
            }
            i += 1;
        }
        r
    }
}

impl Clone for StatementBlock {
    fn clone(&self) -> (r: Self)
        ensures
            r@ == self@,
    {
        proof {
            use_type_invariant(self);
        }
        StatementBlock {
            reference: self.reference,
            includes: clone_references(&self.includes),
            statements: clone_statements(&self.statements),
            time_ns: self.time_ns,
        }
    }
}

/// Locators of the `Share` statements among the first `n` statements of `b`.
pub open spec fn shared_locators_upto(b: BlockView, n: int) -> Seq<TransactionLocator>
    decreases n,
{
    if n <= 0 {
        Seq::empty()
    } else {
        let rest = shared_locators_upto(b, n - 1);
        if b.statements[n - 1] is Share {
            rest.push(TransactionLocator { block: b.reference, offset: (n - 1) as u64 })
        } else {
            rest
        }
    }
}

/// Locators of all `Share` statements of `b`, in block order.
pub open spec fn shared_locators(b: BlockView) -> Seq<TransactionLocator> {
    shared_locators_upto(b, b.statements.len() as int)
}

/// Copies a list of blocks.
pub fn clone_blocks(s: &Vec<StatementBlock>) -> (r: Vec<StatementBlock>)
    ensures
        blocks_view(r@) == blocks_view(s@),
{
    let mut r: Vec<StatementBlock> = Vec::new();
    let mut i: usize = 0;
    while i < s.len()
        invariant
            i <= s.len(),
            r.len() == i,
            forall|j: int| 0 <= j < i ==> r[j]@ == s[j]@,
        decreases s.len() - i,
    {
        r.push(s[i].clone());
        i += 1;
    }
    assert(blocks_view(r@) =~= blocks_view(s@));
    r
}

/// Values of a sequence of blocks, one for one.
pub open spec fn blocks_view(s: Seq<StatementBlock>) -> Seq<BlockView> {
    s.map_values(|x: StatementBlock| x@)
}

} // verus!
