//! What to send to a peer and what to ask of peers: the decisions of block
//! dissemination and block fetching, without the sending.

use crate::block_store::{block_of, has_block, BlockStore, StoredView};
use crate::commit_interpreter::{comes_before, ordered};
use crate::consensus::references_of;
use crate::sorting::{of_round, rounds_ascend, sorted_by_round};
use crate::types::{
    blocks_view, clone_blocks, AuthorityIndex, BlockReference, BlockView, RoundNumber,
    StatementBlock,
};
use vstd::prelude::*;

verus! {

/// Highest number of blocks sent in one message in answer to a request.
pub const SEND_CHUNK_SIZE: usize = 10;

/// Highest number of blocks asked for in one request.
pub const MAXIMUM_BLOCK_REQUEST: usize = 10;

/// The weight of a peer that answers at once, when peers are sampled: the
/// milliseconds of a minute.
pub const MILLIS_IN_MINUTE: u128 = 60_000;

/// Number of peers sampled for one request.
pub const NUMBER_OF_PEERS: usize = 3;

/// A message between the synchronizers of two nodes.
#[derive(Debug)]
pub enum NetworkMessage {
    /// One block.
    Block(StatementBlock),
    /// Several blocks, in answer to a request or from a stream.
    Blocks(Vec<StatementBlock>),
    /// A request for the blocks named.
    RequestBlocks(Vec<BlockReference>),
    /// The blocks named were asked for and are not stored here.
    BlockNotFound(Vec<BlockReference>),
}

/// Mathematical value of a [`NetworkMessage`].
pub enum MessageView {
    Block(BlockView),
    Blocks(Seq<BlockView>),
    RequestBlocks(Seq<BlockReference>),
    BlockNotFound(Seq<BlockReference>),
}

impl View for NetworkMessage {
    type V = MessageView;

    open spec fn view(&self) -> MessageView {
        match self {
            NetworkMessage::Block(b) => MessageView::Block(b@),
            NetworkMessage::Blocks(b) => MessageView::Blocks(blocks_view(b@)),
            NetworkMessage::RequestBlocks(r) => MessageView::RequestBlocks(r@),
            NetworkMessage::BlockNotFound(r) => MessageView::BlockNotFound(r@),
        }
    }
}

/// Values of a sequence of messages, one for one.
pub open spec fn messages_view(s: Seq<NetworkMessage>) -> Seq<MessageView> {
    s.map_values(|m: NetworkMessage| m@)
}

/// How the synchronizer streams and helps.
#[derive(Clone, Copy, Debug)]
pub struct SynchronizerParameters {
    /// Highest number of blocks sent in one message of a stream.
    pub batch_size: usize,
    /// Highest number of streams of other authorities' blocks kept up for
    /// one peer.
    pub maximum_helpers_per_authority: usize,
    /// Milliseconds between two batches of a stream of other authorities'
    /// blocks.
    pub stream_interval_ms: u64,
    /// Milliseconds between two rounds of asking for missing blocks.
    pub sample_precision_ms: u64,
}

impl SynchronizerParameters {
    /// The parameters a node starts with.
    pub open spec fn spec_default() -> Self {
        SynchronizerParameters {
            batch_size: 100,
            maximum_helpers_per_authority: 2,
            stream_interval_ms: 1_000,
            sample_precision_ms: 600,
        }
    }

    /// The parameters a node starts with.
    pub fn default_parameters() -> (r: Self)
        ensures
            r == Self::spec_default(),
    {
        SynchronizerParameters {
            batch_size: 100,
            maximum_helpers_per_authority: 2,
            stream_interval_ms: 1_000,
            sample_precision_ms: 600,
        }
    }
}

/// The blocks of `references` that are stored, in order.
pub open spec fn found(s: Seq<StoredView>, references: Seq<BlockReference>, n: int) -> Seq<BlockView>
    decreases n,
{
    if n <= 0 {
        Seq::empty()
    } else if has_block(s, references[n - 1]) {
        found(s, references, n - 1).push(block_of(s, references[n - 1]))
    } else {
        found(s, references, n - 1)
    }
}

/// The references of `references` that name no stored block, in order.
pub open spec fn not_found(s: Seq<StoredView>, references: Seq<BlockReference>, n: int) -> Seq<
    BlockReference,
>
    decreases n,
{
    if n <= 0 {
        Seq::empty()
    } else if has_block(s, references[n - 1]) {
        not_found(s, references, n - 1)
    } else {
        not_found(s, references, n - 1).push(references[n - 1])
    }
}

/// The items of `list` cut into runs of `size`, the last one shorter where
/// they do not divide.
pub open spec fn chunked<A>(list: Seq<A>, size: int) -> Seq<Seq<A>>
    decreases list.len(),
{
    if size <= 0 || list.len() == 0 {
        Seq::empty()
    } else if list.len() <= size {
        seq![list]
    } else {
        seq![list.take(size)] + chunked(list.skip(size), size)
    }
}

/// The messages that carry `blocks` in runs of `size`.
pub open spec fn block_messages(blocks: Seq<BlockView>, size: int) -> Seq<MessageView> {
    chunked(blocks, size).map_values(|c: Seq<BlockView>| MessageView::Blocks(c))
}

/// The requests that ask for `references` in runs of `size`.
pub open spec fn request_messages(references: Seq<BlockReference>, size: int) -> Seq<MessageView> {
    chunked(references, size).map_values(|c: Seq<BlockReference>| MessageView::RequestBlocks(c))
}

/// All references of the first `n` lists of `lists`, in order.
pub open spec fn flattened(lists: Seq<Vec<BlockReference>>, n: int) -> Seq<BlockReference>
    decreases n,
{
    if n <= 0 {
        Seq::empty()
    } else {
        flattened(lists, n - 1) + lists[n - 1]@
    }
}

/// Cutting off a full first run leaves the runs of the rest.
pub proof fn lemma_chunked_step<A>(done: Seq<A>, chunk: Seq<A>, rest: Seq<A>, size: int)
    requires
        size > 0,
        (done.len() as int) % size == 0,
        chunk.len() == size,
    ensures
        chunked(done + chunk + rest, size) == chunked(done + chunk, size) + chunked(rest, size),
        chunked(done + chunk, size) == chunked(done, size).push(chunk),
    decreases done.len(),
{
    if done.len() == 0 {
        assert(done + chunk =~= chunk);
        assert(done + chunk + rest =~= chunk + rest);
        assert(chunked(done, size) =~= Seq::empty());
        if rest.len() == 0 {
            assert(chunk + rest =~= chunk);
            assert(chunked(chunk, size) =~= seq![chunk]);
            assert(chunked(chunk, size) + chunked(rest, size) =~= chunked(chunk, size));
        } else {
            assert((chunk + rest).take(size) =~= chunk);
            assert((chunk + rest).skip(size) =~= rest);
        }
        assert(chunked(chunk, size) =~= seq![chunk]);
        assert(seq![chunk] =~= Seq::<Seq<A>>::empty().push(chunk));
    } else {
        assert(done.len() >= size) by (nonlinear_arith)
            requires
                done.len() > 0,
                size > 0,
                (done.len() as int) % size == 0,
        ;
        let head = done.take(size);
        let tail = done.skip(size);
        assert((tail.len() as int) % size == 0) by (nonlinear_arith)
            requires
                tail.len() == done.len() - size,
                done.len() >= size,
                size > 0,
                (done.len() as int) % size == 0,
        ;
        lemma_chunked_step(tail, chunk, rest, size);
        assert((done + chunk + rest).take(size) =~= head);
        assert((done + chunk + rest).skip(size) =~= tail + chunk + rest);
        assert((done + chunk).take(size) =~= head);
        assert((done + chunk).skip(size) =~= tail + chunk);
        assert(chunked(done + chunk + rest, size) =~= seq![head] + chunked(
            tail + chunk + rest,
            size,
        ));
        assert(chunked(done + chunk, size) =~= seq![head] + chunked(tail + chunk, size));
        if tail.len() == 0 {
            assert(done =~= head);
            assert(chunked(done, size) =~= seq![head]);
            assert(chunked(tail, size) =~= Seq::empty());
        } else {
            assert(chunked(done, size) =~= seq![head] + chunked(tail, size));
        }
        assert(chunked(done + chunk, size) =~= chunked(done, size).push(chunk));
    }
}

/// A last run that is not full is the last run.
pub proof fn lemma_chunked_last<A>(done: Seq<A>, chunk: Seq<A>, size: int)
    requires
        size > 0,
        (done.len() as int) % size == 0,
        0 < chunk.len() <= size,
    ensures
        chunked(done + chunk, size) == chunked(done, size).push(chunk),
    decreases done.len(),
{
    if done.len() == 0 {
        assert(done + chunk =~= chunk);
        assert(chunked(done, size) =~= Seq::empty());
        assert(chunked(chunk, size) =~= seq![chunk]);
        assert(seq![chunk] =~= Seq::<Seq<A>>::empty().push(chunk));
    } else {
        assert(done.len() >= size) by (nonlinear_arith)
            requires
                done.len() > 0,
                size > 0,
                (done.len() as int) % size == 0,
        ;
        let head = done.take(size);
        let tail = done.skip(size);
        assert((tail.len() as int) % size == 0) by (nonlinear_arith)
            requires
                tail.len() == done.len() - size,
                done.len() >= size,
                size > 0,
                (done.len() as int) % size == 0,
        ;
        lemma_chunked_last(tail, chunk, size);
        assert((done + chunk).take(size) =~= head);
        assert((done + chunk).skip(size) =~= tail + chunk);
        assert(chunked(done + chunk, size) =~= seq![head] + chunked(tail + chunk, size));
        if tail.len() == 0 {
            assert(done =~= head);
            assert(chunked(done, size) =~= seq![head]);
            assert(chunked(tail, size) =~= Seq::empty());
        } else {
            assert(chunked(done, size) =~= seq![head] + chunked(tail, size));
        }
    }
}

/// Cuts `references` into requests of [`MAXIMUM_BLOCK_REQUEST`] at most.
fn chunk_requests(references: &Vec<BlockReference>) -> (r: Vec<NetworkMessage>)
    ensures
        messages_view(r@) == request_messages(references@, MAXIMUM_BLOCK_REQUEST as int),
{
    let ghost all = references@;
    let ghost size = MAXIMUM_BLOCK_REQUEST as int;
    let mut r: Vec<NetworkMessage> = Vec::new();
    let mut current: Vec<BlockReference> = Vec::new();
    let mut i: usize = 0;
    assert(messages_view(r@) =~= request_messages(all.take(0), size));
    assert(all.take(0) + current@ =~= all.take(0));
    while i < references.len()
        invariant
            i <= references.len(),
            all == references@,
            size == MAXIMUM_BLOCK_REQUEST as int,
            current@.len() < MAXIMUM_BLOCK_REQUEST,
            current@.len() <= i,
            (i - current@.len()) % size == 0,
            all.take(i as int) == all.take(i - current@.len()) + current@,
            messages_view(r@) == request_messages(all.take(i - current@.len()), size),
        decreases references.len() - i,
    {
        let ghost done = all.take(i - current@.len());
        let ghost sent = messages_view(r@);
        current.push(references[i]);
        i += 1;
        assert(all.take(i as int) =~= done + current@);
        if current.len() >= MAXIMUM_BLOCK_REQUEST {
            let ghost chunk = current@;
            let mut full: Vec<BlockReference> = Vec::new();
            std::mem::swap(&mut full, &mut current);
            r.push(NetworkMessage::RequestBlocks(full));
            proof {
                lemma_chunked_step(done, chunk, Seq::empty(), size);
                assert(messages_view(r@) =~= sent.push(MessageView::RequestBlocks(chunk)));
                assert(request_messages(done + chunk, size) =~= request_messages(done, size).push(
                    MessageView::RequestBlocks(chunk),
                ));
                assert(all.take(i as int) =~= all.take(i as int) + current@);
                assert((i - current@.len()) % size == 0) by (nonlinear_arith)
                    requires
                        current@.len() == 0,
                        i == done.len() + size,
                        (done.len() as int) % size == 0,
                        size > 0,
                ;
            }
        }
    }
    assert(all.take(i as int) =~= all);
    if current.len() > 0 {
        let ghost done = all.take(i - current@.len());
        let ghost chunk = current@;
        let ghost sent = messages_view(r@);
        r.push(NetworkMessage::RequestBlocks(current));
        proof {
            lemma_chunked_last(done, chunk, size);
            assert(messages_view(r@) =~= sent.push(MessageView::RequestBlocks(chunk)));
            assert(request_messages(done + chunk, size) =~= request_messages(done, size).push(
                MessageView::RequestBlocks(chunk),
            ));
        }
    } else {
        assert(all.take(i - current@.len()) =~= all);
    }
    r
}

/// What a node streams to one peer.
#[derive(Debug)]
pub struct BlockDisseminator {
    peer: AuthorityIndex,
    own_blocks: bool,
    other_blocks: usize,
    parameters: SynchronizerParameters,
}

/// A stream of blocks to start.
#[derive(Clone, Copy, Debug, PartialEq, Eq, Structural)]
pub struct StreamStart {
    /// Whether a stream of the same kind runs and has to be stopped first.
    pub replaces: bool,
    /// The stream sends blocks of rounds after this one.
    pub round: RoundNumber,
    /// Highest number of blocks sent in one message.
    pub batch_size: usize,
}

impl BlockDisseminator {
    /// A disseminator for `peer` that streams nothing yet.
    pub fn new(peer: AuthorityIndex, parameters: SynchronizerParameters) -> (r: Self)
        ensures
            r.spec_peer() == peer,
            r.spec_parameters() == parameters,
            !r.streams_own(),
            r.helpers() == 0,
    {
        BlockDisseminator { peer, own_blocks: false, other_blocks: 0, parameters }
    }

    pub closed spec fn spec_peer(&self) -> AuthorityIndex {
        self.peer
    }

    pub closed spec fn spec_parameters(&self) -> SynchronizerParameters {
        self.parameters
    }

    /// Whether a stream of own blocks runs.
    pub closed spec fn streams_own(&self) -> bool {
        self.own_blocks
    }

    /// Number of streams of other authorities' blocks that run.
    pub closed spec fn helpers(&self) -> nat {
        self.other_blocks as nat
    }

    pub fn peer(&self) -> (r: AuthorityIndex)
        ensures
            r == self.spec_peer(),
    {
        self.peer
    }

    /// Answers a request for `references`: the stored blocks among them, in
    /// messages of [`SEND_CHUNK_SIZE`] blocks at most, then one message that
    /// names those that are not stored.
    pub fn send_blocks(&self, store: &BlockStore, references: &Vec<BlockReference>) -> (r: Vec<
        NetworkMessage,
    >)
        requires
            store.inv(),
        ensures
            messages_view(r@) == block_messages(
                found(store@, references@, references@.len() as int),
                SEND_CHUNK_SIZE as int,
            ).push(
                MessageView::BlockNotFound(
                    not_found(store@, references@, references@.len() as int),
                ),
            ),
    {
        let ghost s = store@;
        let ghost size = SEND_CHUNK_SIZE as int;
        let mut r: Vec<NetworkMessage> = Vec::new();
        let mut missing: Vec<BlockReference> = Vec::new();
        let mut to_send: Vec<StatementBlock> = Vec::new();
        let mut i: usize = 0;
        let ghost mut done: Seq<BlockView> = Seq::empty();
        assert(messages_view(r@) =~= block_messages(done, size));
        assert(done + blocks_view(to_send@) =~= found(s, references@, 0));
        while i < references.len()
            invariant
                i <= references.len(),
                s == store@,
                store.inv(),
                size == SEND_CHUNK_SIZE as int,
                to_send@.len() < SEND_CHUNK_SIZE,
                (done.len() as int) % size == 0,
                found(s, references@, i as int) == done + blocks_view(to_send@),
                missing@ == not_found(s, references@, i as int),
                messages_view(r@) == block_messages(done, size),
            decreases references.len() - i,
        {
            let ghost waiting = blocks_view(to_send@);
            match store.get_block(references[i]) {
                Some(block) => {
                    to_send.push(block);
                    assert(blocks_view(to_send@) =~= waiting.push(block@));
                    assert(done + blocks_view(to_send@) =~= (done + waiting).push(block@));
                },
                None => {
                    missing.push(references[i]);
                },
            }
            i += 1;
            if to_send.len() >= SEND_CHUNK_SIZE {
                let ghost chunk = blocks_view(to_send@);
                let ghost sent = messages_view(r@);
                let mut full: Vec<StatementBlock> = Vec::new();
                std::mem::swap(&mut full, &mut to_send);
                r.push(NetworkMessage::Blocks(full));
                proof {
                    lemma_chunked_step(done, chunk, Seq::empty(), size);
                    assert(messages_view(r@) =~= sent.push(MessageView::Blocks(chunk)));
                    assert(block_messages(done + chunk, size) =~= block_messages(done, size).push(
                        MessageView::Blocks(chunk),
                    ));
                    assert(((done + chunk).len() as int) % size == 0) by (nonlinear_arith)
                        requires
                            (done + chunk).len() == done.len() + size,
                            (done.len() as int) % size == 0,
                            size > 0,
                    ;
                    done = done + chunk;
                    assert(blocks_view(to_send@) =~= Seq::empty());
                    assert(done + blocks_view(to_send@) =~= done);
                }
            }
        }
        if to_send.len() > 0 {
            let ghost chunk = blocks_view(to_send@);
            let ghost sent = messages_view(r@);
            r.push(NetworkMessage::Blocks(to_send));
            proof {
                lemma_chunked_last(done, chunk, size);
                assert(messages_view(r@) =~= sent.push(MessageView::Blocks(chunk)));
                assert(block_messages(done + chunk, size) =~= block_messages(done, size).push(
                    MessageView::Blocks(chunk),
                ));
            }
        } else {
            assert(blocks_view(to_send@) =~= Seq::empty());
            assert(done + blocks_view(to_send@) =~= done);
        }
        let ghost sent = messages_view(r@);
        r.push(NetworkMessage::BlockNotFound(missing));
        assert(messages_view(r@) =~= sent.push(MessageView::BlockNotFound(missing@)));
        r
    }

    /// Ends the dissemination: tells whether a stream of own blocks runs and
    /// how many streams of other authorities' blocks run, all of which are
    /// to be stopped.
    pub fn shutdown(self) -> (r: (bool, usize))
        ensures
            r.0 == self.streams_own(),
            r.1 == self.helpers(),
    {
        (self.own_blocks, self.other_blocks)
    }

    /// Starts the stream of own blocks of rounds after `round`, in place of
    /// the one that runs, if one does.
    pub fn disseminate_own_blocks(&mut self, round: RoundNumber) -> (r: StreamStart)
        ensures
            r == (StreamStart {
                replaces: old(self).streams_own(),
                round,
                batch_size: old(self).spec_parameters().batch_size,
            }),
            final(self).streams_own(),
            final(self).helpers() == old(self).helpers(),
            final(self).spec_peer() == old(self).spec_peer(),
            final(self).spec_parameters() == old(self).spec_parameters(),
    {
        let replaces = self.own_blocks;
        self.own_blocks = true;
        StreamStart { replaces, round, batch_size: self.parameters.batch_size }
    }

    /// The next message of a stream of own blocks that has sent the rounds
    /// up to `round`, with the round it has sent up to after that message;
    /// nothing where no later own block is stored, and the stream waits.
    pub fn stream_own_blocks(store: &BlockStore, round: RoundNumber, batch_size: usize) -> (r:
        Option<(NetworkMessage, RoundNumber)>)
        requires
            store.inv(),
        ensures
            match r {
                Some((message, next)) => {
                    &&& message@ matches MessageView::Blocks(blocks)
                    &&& blocks.len() > 0
                    &&& is_batch(
                        store@,
                        store.spec_authority(),
                        round,
                        batch_size as int,
                        references_of(blocks),
                    )
                    &&& forall|k: int|
                        0 <= k < blocks.len() ==> #[trigger] blocks[k] == block_of(
                            store@,
                            blocks[k].reference,
                        )
                    &&& next == blocks.last().reference.round
                    &&& next > round
                },
                None => is_batch(
                    store@,
                    store.spec_authority(),
                    round,
                    batch_size as int,
                    Seq::empty(),
                ),
            },
    {
        let blocks = store.get_own_blocks(round, batch_size);
        if blocks.len() == 0 {
            assert(references_of(blocks_view(blocks@)) =~= Seq::empty());
            None
        } else {
            let next: RoundNumber = blocks[blocks.len() - 1].round();
            proof {
                let names = references_of(blocks_view(blocks@));
                assert(names.contains(names[names.len() - 1]));
            }
            Some((NetworkMessage::Blocks(blocks), next))
        }
    }

    /// Starts a stream of the blocks of `author` of rounds after `round`,
    /// unless as many such streams run as the parameters allow.
    pub fn disseminate_others_blocks(&mut self, round: RoundNumber, author: AuthorityIndex) -> (r:
        Option<StreamStart>)
        ensures
            final(self).streams_own() == old(self).streams_own(),
            final(self).spec_peer() == old(self).spec_peer(),
            final(self).spec_parameters() == old(self).spec_parameters(),
            old(self).helpers() >= old(self).spec_parameters().maximum_helpers_per_authority ==> r
                is None && final(self).helpers() == old(self).helpers(),
            old(self).helpers() < old(self).spec_parameters().maximum_helpers_per_authority ==> r
                == Some(
                StreamStart {
                    replaces: false,
                    round,
                    batch_size: old(self).spec_parameters().batch_size,
                },
            ) && final(self).helpers() == old(self).helpers() + 1,
    {
        if self.other_blocks >= self.parameters.maximum_helpers_per_authority {
            return None;
        }
        self.other_blocks = self.other_blocks + 1;
        Some(StreamStart { replaces: false, round, batch_size: self.parameters.batch_size })
    }

    /// The next messages of a stream of the blocks of `author` that has sent
    /// the rounds up to `round`, one block each, with the round it has sent
    /// up to after them.
    pub fn stream_others_blocks(
        store: &BlockStore,
        round: RoundNumber,
        author: AuthorityIndex,
        batch_size: usize,
    ) -> (r: (Vec<NetworkMessage>, RoundNumber))
        requires
            store.inv(),
        ensures
            ({
                let blocks = carried(messages_view(r.0@));
                &&& messages_view(r.0@) == single_messages(blocks)
                &&& forall|k: int|
                    0 <= k < blocks.len() ==> #[trigger] blocks[k] == block_of(
                        store@,
                        blocks[k].reference,
                    )
                &&& if author == store.spec_authority() {
                    blocks.len() == 0
                } else {
                    is_batch(store@, author, round, batch_size as int, references_of(blocks))
                }
                &&& r.1 == if blocks.len() > 0 {
                    blocks.last().reference.round
                } else {
                    round
                }
                &&& r.1 >= round
            }),
    {
        let blocks = store.get_others_blocks(round, author, batch_size);
        let ghost bv = blocks_view(blocks@);
        let ghost names = references_of(bv);
        let mut next: RoundNumber = round;
        let mut messages: Vec<NetworkMessage> = Vec::new();
        let mut k: usize = 0;
        while k < blocks.len()
            invariant
                k <= blocks.len(),
                bv == blocks_view(blocks@),
                names == references_of(bv),
                messages@.len() == k,
                forall|j: int|
                    0 <= j < k ==> (#[trigger] messages@[j])@ == MessageView::Block(bv[j]),
                next == if k > 0 {
                    names[k - 1].round
                } else {
                    round
                },
            decreases blocks.len() - k,
        {
            next = blocks[k].round();
            messages.push(NetworkMessage::Block(blocks[k].clone()));
            k += 1;
        }
        proof {
            assert(carried(messages_view(messages@)) =~= bv);
            assert(messages_view(messages@) =~= single_messages(bv));
            if names.len() > 0 {
                assert(names.contains(names[names.len() - 1]));
            }
        }
        (messages, next)
    }
}

/// The blocks that messages of one block each carry.
pub open spec fn carried(messages: Seq<MessageView>) -> Seq<BlockView> {
    messages.map_values(
        |m: MessageView|
            match m {
                MessageView::Block(b) => b,
                _ => arbitrary(),
            },
    )
}

/// The messages that carry `blocks` one by one.
pub open spec fn single_messages(blocks: Seq<BlockView>) -> Seq<MessageView> {
    blocks.map_values(|b: BlockView| MessageView::Block(b))
}

/// Whether `r` names a stored block of `author` of a round after `from`.
pub open spec fn streamed(
    s: Seq<StoredView>,
    author: AuthorityIndex,
    from: RoundNumber,
    r: BlockReference,
) -> bool {
    has_block(s, r) && r.authority == author && r.round > from
}

/// Whether `list` names the next batch of a stream: the first `batch` of
/// the stored blocks of `author` of rounds after `from`, by round (and by
/// digest within a round), or all of them where they are fewer.
pub open spec fn is_batch(
    s: Seq<StoredView>,
    author: AuthorityIndex,
    from: RoundNumber,
    batch: int,
    list: Seq<BlockReference>,
) -> bool {
    &&& ordered(list)
    &&& list.len() <= batch
    &&& forall|k: int| 0 <= k < list.len() ==> streamed(s, author, from, #[trigger] list[k])
    &&& forall|r: BlockReference|
        streamed(s, author, from, r) ==> list.contains(r) || (list.len() == batch && forall|
            k: int,
        |
            0 <= k < list.len() ==> comes_before(#[trigger] list[k], r))
}

impl BlockStore {
    /// The stored blocks of `author` of rounds after `from_round`, by round,
    /// `batch_size` of them at most.
    fn get_blocks_of(&self, from_round: RoundNumber, author: AuthorityIndex, batch_size: usize) -> (r:
        Vec<StatementBlock>)
        requires
            self.inv(),
        ensures
            is_batch(self@, author, from_round, batch_size as int, references_of(blocks_view(r@))),
            forall|k: int|
                0 <= k < r@.len() ==> (#[trigger] r@[k])@ == block_of(self@, r@[k]@.reference),
    {
        let ghost s = self@;
        let mut all: Vec<BlockReference> = Vec::new();
        let mut i: usize = 0;
        while i < self.len()
            invariant
                i <= self@.len(),
                s == self@,
                ordered(all@),
                forall|r: BlockReference|
                    all@.contains(r) <==> exists|j: int|
                        0 <= j < i && (#[trigger] s[j]).block.reference == r && streamed(
                            s,
                            author,
                            from_round,
                            r,
                        ),
            decreases self@.len() - i,
        {
            let ghost before = all@;
            let reference = *self.block_at(i).reference();
            proof {
                assert(s[i as int].block.reference == reference);
            }
            if reference.authority == author && reference.round > from_round {
                crate::commit_interpreter::insert_ordered(&mut all, reference);
            }
            proof {
                assert forall|r: BlockReference| all@.contains(r) <==> exists|j: int|
                    0 <= j < i + 1 && (#[trigger] s[j]).block.reference == r && streamed(
                        s,
                        author,
                        from_round,
                        r,
                    ) by {
                    if before.contains(r) {
                        let j = choose|j: int|
                            0 <= j < i && (#[trigger] s[j]).block.reference == r && streamed(
                                s,
                                author,
                                from_round,
                                r,
                            );
                        assert(s[j].block.reference == r);
                    }
                    if r == reference && streamed(s, author, from_round, r) {
                        assert(s[i as int].block.reference == r);
                    }
                    if exists|j: int|
                        0 <= j < i + 1 && (#[trigger] s[j]).block.reference == r && streamed(
                            s,
                            author,
                            from_round,
                            r,
                        ) {
                        let j = choose|j: int|
                            0 <= j < i + 1 && (#[trigger] s[j]).block.reference == r && streamed(
                                s,
                                author,
                                from_round,
                                r,
                            );
                        if j < i {
                            assert(before.contains(r));
                        }
                    }
                }
            }
            i += 1;
        }
        proof {
            assert forall|r: BlockReference| all@.contains(r) <==> streamed(
                s,
                author,
                from_round,
                r,
            ) by {
                if streamed(s, author, from_round, r) {
                    let j = crate::block_store::index_of(s, r);
                    assert(s[j].block.reference == r);
                }
            }
        }
        let count: usize = if all.len() < batch_size {
            all.len()
        } else {
            batch_size
        };
        let mut r: Vec<StatementBlock> = Vec::new();
        let mut k: usize = 0;
        while k < count
            invariant
                k <= count,
                count <= all@.len(),
                s == self@,
                self.inv(),
                r@.len() == k,
                ordered(all@),
                forall|x: BlockReference|
                    all@.contains(x) <==> streamed(s, author, from_round, x),
                forall|j: int|
                    0 <= j < k ==> (#[trigger] r@[j])@ == block_of(s, all@[j]) && r@[j]@.reference
                        == all@[j],
            decreases count - k,
        {
            assert(all@.contains(all@[k as int]));
            let block = self.get_block(all[k]).unwrap();
            r.push(block);
            k += 1;
        }
        proof {
            let names = references_of(blocks_view(r@));
            assert(names =~= all@.take(count as int));
            assert forall|k: int| 0 <= k < names.len() implies streamed(
                s,
                author,
                from_round,
                #[trigger] names[k],
            ) by {
                assert(all@.contains(all@[k]));
            }
            assert forall|x: BlockReference|
                streamed(s, author, from_round, x) implies names.contains(x) || (names.len()
                == batch_size && forall|k: int|
                0 <= k < names.len() ==> comes_before(#[trigger] names[k], x)) by {
                assert(all@.contains(x));
                let j = choose|j: int| 0 <= j < all@.len() && all@[j] == x;
                if j < count {
                    assert(names[j] == x);
                } else {
                    assert forall|k: int| 0 <= k < names.len() implies comes_before(
                        #[trigger] names[k],
                        x,
                    ) by {
                        assert(comes_before(all@[k], all@[j]));
                    }
                }
            }
        }
        r
    }

    /// The own blocks of rounds after `from_round`, by round, `batch_size`
    /// of them at most.
    pub fn get_own_blocks(&self, from_round: RoundNumber, batch_size: usize) -> (r: Vec<
        StatementBlock,
    >)
        requires
            self.inv(),
        ensures
            is_batch(
                self@,
                self.spec_authority(),
                from_round,
                batch_size as int,
                references_of(blocks_view(r@)),
            ),
            forall|k: int|
                0 <= k < r@.len() ==> (#[trigger] r@[k])@ == block_of(self@, r@[k]@.reference),
    {
        self.get_blocks_of(from_round, self.authority(), batch_size)
    }

    /// The blocks of `author` of rounds after `from_round`, by round,
    /// `batch_size` of them at most; none where `author` is the authority
    /// of this store.
    pub fn get_others_blocks(
        &self,
        from_round: RoundNumber,
        author: AuthorityIndex,
        batch_size: usize,
    ) -> (r: Vec<StatementBlock>)
        requires
            self.inv(),
        ensures
            author == self.spec_authority() ==> r@.len() == 0,
            author != self.spec_authority() ==> is_batch(
                self@,
                author,
                from_round,
                batch_size as int,
                references_of(blocks_view(r@)),
            ),
            forall|k: int|
                0 <= k < r@.len() ==> (#[trigger] r@[k])@ == block_of(self@, r@[k]@.reference),
    {
        if author == self.authority() {
            Vec::new()
        } else {
            self.get_blocks_of(from_round, author, batch_size)
        }
    }
}

/// The first `n` of `list` but for `x`, in order.
pub open spec fn without(list: Seq<AuthorityIndex>, x: AuthorityIndex, n: int) -> Seq<AuthorityIndex>
    decreases n,
{
    if n <= 0 {
        Seq::empty()
    } else if list[n - 1] == x {
        without(list, x, n - 1)
    } else {
        without(list, x, n - 1).push(list[n - 1])
    }
}

/// Decides what the block fetcher asks of its peers.
#[derive(Debug)]
pub struct BlockFetcherWorker {
    id: AuthorityIndex,
    peers: Vec<AuthorityIndex>,
    parameters: SynchronizerParameters,
    enable: bool,
}


impl BlockFetcherWorker {
    /// A worker for the node `id`. `enable` tells whether the surroundings
    /// have switched the synchronizer on.
    pub fn new(id: AuthorityIndex, enable: bool) -> (r: Self)
        ensures
            r.spec_id() == id,
            r.spec_enable() == enable,
            r.spec_peers() == Seq::<AuthorityIndex>::empty(),
            r.spec_parameters() == SynchronizerParameters::spec_default(),
    {
        BlockFetcherWorker {
            id,
            peers: Vec::new(),
            parameters: SynchronizerParameters::default_parameters(),
            enable,
        }
    }

    /// The peers that blocks can be asked of, in the order of registering.
    pub closed spec fn spec_peers(&self) -> Seq<AuthorityIndex> {
        self.peers@
    }

    /// The peers that blocks can be asked of, in the order of registering.
    pub fn peers(&self) -> (r: &Vec<AuthorityIndex>)
        ensures
            r@ == self.spec_peers(),
    {
        &self.peers
    }

    /// Notes that blocks can be asked of `authority`. Returns whether it was
    /// new; a peer registered again keeps its place.
    pub fn register_authority(&mut self, authority: AuthorityIndex) -> (added: bool)
        ensures
            final(self).spec_id() == old(self).spec_id(),
            final(self).spec_enable() == old(self).spec_enable(),
            final(self).spec_parameters() == old(self).spec_parameters(),
            added == !old(self).spec_peers().contains(authority),
            final(self).spec_peers() == if added {
                old(self).spec_peers().push(authority)
            } else {
                old(self).spec_peers()
            },
    {
        let mut k: usize = 0;
        while k < self.peers.len()
            invariant
                k <= self.peers.len(),
                *self == *old(self),
                forall|j: int| 0 <= j < k ==> self.peers@[j] != authority,
            decreases self.peers.len() - k,
        {
            if self.peers[k] == authority {
                return false;
            }
            k += 1;
        }
        self.peers.push(authority);
        true
    }

    /// Notes that blocks can no longer be asked of `authority`.
    pub fn remove_authority(&mut self, authority: AuthorityIndex)
        ensures
            final(self).spec_id() == old(self).spec_id(),
            final(self).spec_enable() == old(self).spec_enable(),
            final(self).spec_parameters() == old(self).spec_parameters(),
            final(self).spec_peers() == without(
                old(self).spec_peers(),
                authority,
                old(self).spec_peers().len() as int,
            ),
    {
        let ghost all = self.peers@;
        let mut kept: Vec<AuthorityIndex> = Vec::new();
        let mut k: usize = 0;
        while k < self.peers.len()
            invariant
                k <= self.peers.len(),
                *self == *old(self),
                all == self.peers@,
                kept@ == without(all, authority, k as int),
            decreases self.peers.len() - k,
        {
            if self.peers[k] != authority {
                kept.push(self.peers[k]);
            }
            k += 1;
        }
        self.peers = kept;
    }

    pub closed spec fn spec_id(&self) -> AuthorityIndex {
        self.id
    }

    pub closed spec fn spec_enable(&self) -> bool {
        self.enable
    }

    pub fn id(&self) -> (r: AuthorityIndex)
        ensures
            r == self.spec_id(),
    {
        self.id
    }

    /// The parameters the worker runs with.
    pub closed spec fn spec_parameters(&self) -> SynchronizerParameters {
        self.parameters
    }

    /// Milliseconds between two rounds of asking.
    pub fn sample_precision_ms(&self) -> (r: u64)
        ensures
            r == self.spec_parameters().sample_precision_ms,
    {
        self.parameters.sample_precision_ms
    }

    /// The requests to send for the blocks in `missing_blocks`, which lists
    /// the missing blocks by authority: all of them, ordered by round, in
    /// requests of [`MAXIMUM_BLOCK_REQUEST`] at most. A worker that is
    /// switched on asks for nothing.
    pub fn sync_strategy(&self, missing_blocks: &Vec<Vec<BlockReference>>) -> (r: Vec<NetworkMessage>)
        ensures
            self.spec_enable() ==> r@.len() == 0,
            !self.spec_enable() ==> exists|sorted: Seq<BlockReference>|
                {
                    &&& rounds_ascend(sorted)
                    &&& forall|round: RoundNumber| #[trigger]
                        sorted.filter(of_round(round)) == flattened(
                            missing_blocks@,
                            missing_blocks@.len() as int,
                        ).filter(of_round(round))
                    &&& #[trigger] request_messages(sorted, MAXIMUM_BLOCK_REQUEST as int)
                        == messages_view(r@)
                },
    {
        if self.enable {
            return Vec::new();
        }
        let mut to_request: Vec<BlockReference> = Vec::new();
        let mut a: usize = 0;
        assert(to_request@ =~= flattened(missing_blocks@, 0));
        while a < missing_blocks.len()
            invariant
                a <= missing_blocks.len(),
                to_request@ == flattened(missing_blocks@, a as int),
            decreases missing_blocks.len() - a,
        {
            let mut more = crate::types::clone_references(&missing_blocks[a]);
            to_request.append(&mut more);
            a += 1;
        }
        let sorted = sorted_by_round(to_request);
        let r = chunk_requests(&sorted);
        assert(request_messages(sorted@, MAXIMUM_BLOCK_REQUEST as int) == messages_view(r@));
        r
    }
}

/// The weight with which a peer is sampled whose answers take `latency_ms`
/// milliseconds: a minute less the latency, nothing for slower peers.
pub open spec fn weight_of(latency_ms: u128) -> u128 {
    if latency_ms >= MILLIS_IN_MINUTE {
        0
    } else {
        (MILLIS_IN_MINUTE - latency_ms) as u128
    }
}

/// The peers to sample from, with their weights, given all peers with their
/// latencies: those not in `except`, in order.
pub open spec fn candidates(
    peers: Seq<(AuthorityIndex, u128)>,
    except: Seq<AuthorityIndex>,
    n: int,
) -> Seq<(AuthorityIndex, u128)>
    decreases n,
{
    if n <= 0 {
        Seq::empty()
    } else if except.contains(peers[n - 1].0) {
        candidates(peers, except, n - 1)
    } else {
        candidates(peers, except, n - 1).push((peers[n - 1].0, weight_of(peers[n - 1].1)))
    }
}

/// Decides [`candidates`].
pub fn sampling_candidates(peers: &Vec<(AuthorityIndex, u128)>, except: &Vec<AuthorityIndex>) -> (r:
    Vec<(AuthorityIndex, u128)>)
    ensures
        r@ == candidates(peers@, except@, peers@.len() as int),
{
    let mut r: Vec<(AuthorityIndex, u128)> = Vec::new();
    let mut n: usize = 0;
    while n < peers.len()
        invariant
            n <= peers.len(),
            r@ == candidates(peers@, except@, n as int),
        decreases peers.len() - n,
    {
        let peer: AuthorityIndex = peers[n].0;
        let latency: u128 = peers[n].1;
        let mut excluded = false;
        let mut k: usize = 0;
        while k < except.len()
            invariant
                k <= except.len(),
                excluded == except@.take(k as int).contains(peer),
            decreases except.len() - k,
        {
            let ghost before = except@.take(k as int);
            if except[k] == peer {
                excluded = true;
            }
            k += 1;
            proof {
                let now = except@.take(k as int);
                assert(now =~= before.push(except@[k - 1]));
                if before.contains(peer) {
                    let j = choose|j: int| 0 <= j < before.len() && before[j] == peer;
                    assert(now[j] == peer);
                }
                if except@[k - 1] == peer {
                    assert(now[k - 1] == peer);
                }
                if now.contains(peer) {
                    let j = choose|j: int| 0 <= j < now.len() && now[j] == peer;
                    if j < k - 1 {
                        assert(before[j] == peer);
                    }
                }
            }
        }
        assert(except@.take(k as int) =~= except@);
        if !excluded {
            let weight: u128 = if latency >= MILLIS_IN_MINUTE {
                0
            } else {
                MILLIS_IN_MINUTE - latency
            };
            r.push((peer, weight));
        }
        n += 1;
    }
    r
}

} // verus!
