//! The validator: it takes blocks in, keeps the graph of them, and keeps a
//! ledger that follows the best chain whose events the ledger accepts.

use vstd::prelude::*;

use crate::blockchain::{
    add_block_verdict, chain_ids, chain_views, is_add_block, is_candidate, is_chain, is_child_of,
    is_path, lemma_path_determined_by_end, lemma_path_survives_insert, outranks, AddBlockError,
    settled, AddBlockOk, Block, BlockGraph, BlockGraphView, BlockId, BlockView, Blocks,
};
use crate::ledger::{
    block_fails, block_passes, AccountView, EventView, Ledger, LedgerView, TransferVerifierArgs,
    UserId,
};
use crate::proof_of_work::{check_work, work_verdict, DoWorkError};

verus! {

/// Why a block was turned away.
#[derive(Debug, Clone, Copy, PartialEq, Eq, Structural)]
pub enum BlockIngestError {
    /// The block's work was invalid.
    DoWorkError(DoWorkError),
}

/// The blocks that `chain` names.
pub open spec fn blocks_of(blocks: Blocks, chain: Seq<BlockId>) -> Seq<BlockView> {
    chain.map_values(|id: BlockId| blocks[id])
}

/// The events of a chain of blocks, from the first event of the first block
/// to the last event of the last.
pub open spec fn chain_events(chain: Seq<BlockView>) -> Seq<EventView>
    decreases chain.len(),
{
    if chain.len() == 0 {
        Seq::empty()
    } else {
        chain_events(chain.drop_last()) + chain.last().events
    }
}

/// Every block of the chain passes when the chain is replayed from an empty
/// ledger.
pub open spec fn chain_passes<F: Fn(TransferVerifierArgs) -> bool>(
    verifier: F,
    chain: Seq<BlockView>,
) -> bool {
    forall|k: int|
        0 <= k < chain.len() ==> block_passes(
            verifier,
            chain_events(chain.take(k)),
            (#[trigger] chain[k]).id,
            chain[k].events,
        )
}

/// Some block of the chain fails when the chain is replayed from an empty
/// ledger.
pub open spec fn chain_fails<F: Fn(TransferVerifierArgs) -> bool>(
    verifier: F,
    chain: Seq<BlockView>,
) -> bool {
    exists|k: int|
        0 <= k < chain.len() && block_fails(
            verifier,
            chain_events(chain.take(k)),
            (#[trigger] chain[k]).id,
            chain[k].events,
        )
}

/// `followed` is the best chain of `blocks` that passes: it passes, and every
/// chain that outranks it fails. Where `followed` is empty, every chain fails.
pub open spec fn follows_best<F: Fn(TransferVerifierArgs) -> bool>(
    verifier: F,
    blocks: Blocks,
    followed: Seq<BlockId>,
) -> bool {
    &&& followed.len() > 0 ==> is_chain(blocks, followed)
    &&& chain_passes(verifier, blocks_of(blocks, followed))
    &&& forall|other: Seq<BlockId>|
        #[trigger] is_chain(blocks, other) && outranks(other, followed) ==> chain_fails(
            verifier,
            blocks_of(blocks, other),
        )
}

/// `block` names the tip of `followed` as its parent.
pub open spec fn extends_followed(followed: Seq<BlockId>, block: BlockView) -> bool {
    followed.len() > 0 && block.parent == Some(followed.last())
}

/// The events of a chain end with the events of its last block.
proof fn lemma_chain_events_step(chain: Seq<BlockView>, k: int)
    requires
        0 <= k < chain.len(),
    ensures
        chain_events(chain.take(k + 1)) == chain_events(chain.take(k)) + chain[k].events,
{
    assert(chain.take(k + 1).drop_last() =~= chain.take(k));
}

/// The ids of a chain of blocks.
fn ids_of(chain: &Vec<Block>) -> (ids: Vec<BlockId>)
    ensures
        ids@ == chain_ids(chain_views(chain@)),
{
    let mut ids: Vec<BlockId> = Vec::new();
    let mut at: usize = 0;
    while at < chain.len()
        invariant
            at <= chain.len(),
            ids.len() == at,
            forall|i: int| 0 <= i < at ==> ids[i] == chain[i]@.id,
        decreases chain.len() - at,
    {
        ids.push(chain[at].id());
        at += 1;
    }
    assert(ids@ =~= chain_ids(chain_views(chain@)));
    ids
}

/// The ledger that the events of `chain` produce when they are replayed, in
/// order, into a fresh ledger; nothing if one of them fails.
pub fn replay_chain<F: Fn(TransferVerifierArgs) -> bool>(
    chain: &Vec<Block>,
    transfer_verifier: &F,
) -> (replayed: Option<Ledger>)
    requires
        forall|args: TransferVerifierArgs| call_requires(*transfer_verifier, (args,)),
    ensures
        match replayed {
            Some(ledger) => {
                &&& ledger.wf()
                &&& ledger@.events == chain_events(chain_views(chain@))
                &&& chain_passes(*transfer_verifier, chain_views(chain@))
            },
            None => chain_fails(*transfer_verifier, chain_views(chain@)),
        },
{
    let mut ledger = Ledger::new();
    let ghost views = chain_views(chain@);
    let mut at: usize = 0;
    assert(views.take(0) =~= Seq::<BlockView>::empty());
    while at < chain.len()
        invariant
            at <= chain.len(),
            views == chain_views(chain@),
            ledger.wf(),
            ledger@.events == chain_events(views.take(at as int)),
            forall|args: TransferVerifierArgs| call_requires(*transfer_verifier, (args,)),
            forall|k: int|
                0 <= k < at ==> block_passes(
                    *transfer_verifier,
                    chain_events(views.take(k)),
                    (#[trigger] views[k]).id,
                    views[k].events,
                ),
        decreases chain.len() - at,
    {
        let block = &chain[at];
        assert(views[at as int] == block@);
        match ledger.extend_with_block(block.id(), block.events(), transfer_verifier) {
            Ok(()) => {
                proof {
                    lemma_chain_events_step(views, at as int);
                }
            },
            Err(_) => {
                assert(block_fails(
                    *transfer_verifier,
                    chain_events(views.take(at as int)),
                    views[at as int].id,
                    views[at as int].events,
                ));
                return None;
            },
        }
        at += 1;
    }
    assert(views.take(at as int) =~= views);
    Some(ledger)
}


/// Every chain that ends in `tip` fails.
pub open spec fn tip_fails<F: Fn(TransferVerifierArgs) -> bool>(
    verifier: F,
    blocks: Blocks,
    tip: BlockId,
) -> bool {
    forall|chain: Seq<BlockId>|
        #[trigger] is_chain(blocks, chain) && chain.last() == tip ==> chain_fails(
            verifier,
            blocks_of(blocks, chain),
        )
}

/// `after` is the node that taking `block` into `before` leaves behind, as
/// far as ledger and followed chain go.
///
/// A block that was there already changes nothing. A block that extends the
/// tip of the winning chain, where that is the followed chain, is replayed on
/// top of the ledger; if it passes, the followed chain grows by it and is the
/// cached winning chain of the graph. In every other case the node follows
/// the best chain that passes.
pub open spec fn is_ingested<F: Fn(TransferVerifierArgs) -> bool>(
    verifier: F,
    before: ValidatorNodeView,
    block: BlockView,
    after: ValidatorNodeView,
) -> bool {
    let verdict = add_block_verdict(before.graph, block);
    if verdict == Ok::<AddBlockOk, AddBlockError>(AddBlockOk::Noop) {
        after.ledger == before.ledger && after.followed == before.followed
    } else if verdict == Ok::<AddBlockOk, AddBlockError>(AddBlockOk::CanAddNewEventsToLedger)
        && extends_followed(before.followed, block) {
        ||| {
            &&& block_passes(verifier, before.ledger.events, block.id, block.events)
            &&& after.followed == before.followed.push(block.id)
            &&& after.followed == chain_ids(after.graph.winning_chain)
            &&& after.ledger.events == before.ledger.events + block.events
        }
        ||| {
            &&& block_fails(verifier, before.ledger.events, block.id, block.events)
            &&& follows_best(verifier, after.graph.blocks, after.followed)
        }
    } else {
        follows_best(verifier, after.graph.blocks, after.followed)
    }
}

/// Taking the same block in a second time changes neither graph nor ledger.
pub proof fn lemma_ingest_idempotent<F: Fn(TransferVerifierArgs) -> bool>(
    verifier: F,
    before: ValidatorNodeView,
    block: BlockView,
    once: ValidatorNodeView,
    twice: ValidatorNodeView,
)
    requires
        add_block_verdict(before.graph, block) is Ok,
        is_add_block(before.graph, block, once.graph),
        is_add_block(once.graph, block, twice.graph),
        is_ingested(verifier, once, block, twice),
    ensures
        twice.graph == once.graph,
        twice.ledger == once.ledger,
        twice.followed == once.followed,
{
}

/// A followed chain grown by a block that names its tip as parent is a path
/// of the grown graph, and its blocks are the old blocks and the new one.
proof fn lemma_followed_grows(blocks: Blocks, followed: Seq<BlockId>, block: BlockView)
    requires
        is_path(blocks, followed),
        !blocks.contains_key(block.id),
        block.parent == Some(followed.last()),
    ensures
        is_path(blocks.insert(block.id, block), followed.push(block.id)),
        blocks_of(blocks.insert(block.id, block), followed.push(block.id)) == blocks_of(
            blocks,
            followed,
        ).push(block),
        blocks_of(blocks.insert(block.id, block), followed) == blocks_of(blocks, followed),
{
    let grown = blocks.insert(block.id, block);
    let longer = followed.push(block.id);
    lemma_path_survives_insert(blocks, followed, block);
    assert forall|i: int| 0 <= i < followed.len() implies blocks.contains_key(followed[i]) by {
        if i > 0 {
            assert(is_child_of(blocks, followed[i - 1], followed[i]));
        }
    }
    assert forall|i: int| 0 < i < longer.len() implies is_child_of(
        grown,
        longer[i - 1],
        #[trigger] longer[i],
    ) by {
        if i < followed.len() {
            assert(is_child_of(grown, followed[i - 1], followed[i]));
        }
    }
    assert(blocks_of(grown, longer) =~= blocks_of(blocks, followed).push(block));
    assert(blocks_of(grown, followed) =~= blocks_of(blocks, followed));
}

/// A graph of blocks and the ledger of the best chain that passes.
pub struct ValidatorNode {
    ledger: Ledger,
    blocks: BlockGraph,
    followed: Vec<BlockId>,
}

/// The mathematical content of a [`ValidatorNode`].
pub struct ValidatorNodeView {
    /// The ledger.
    pub ledger: LedgerView,
    /// The graph of all blocks that were taken in.
    pub graph: BlockGraphView,
    /// The ids of the chain whose events the ledger holds, root first.
    pub followed: Seq<BlockId>,
}

impl View for ValidatorNode {
    type V = ValidatorNodeView;

    closed spec fn view(&self) -> ValidatorNodeView {
        ValidatorNodeView { ledger: self.ledger@, graph: self.blocks@, followed: self.followed@ }
    }
}

impl ValidatorNode {
    /// Graph and ledger are well-formed, and the ledger holds the events of
    /// the followed chain, which is a path through the graph.
    pub closed spec fn wf(&self) -> bool {
        &&& self.blocks.wf()
        &&& self.ledger.wf()
        &&& self@.followed.len() > 0 ==> is_path(self@.graph.blocks, self@.followed)
        &&& self@.ledger.events == chain_events(blocks_of(self@.graph.blocks, self@.followed))
    }

    /// What a well-formed node offers to those who cannot look inside it.
    pub proof fn lemma_wf(&self)
        requires
            self.wf(),
        ensures
            self@.followed.len() > 0 ==> is_path(self@.graph.blocks, self@.followed),
            self@.ledger.events == chain_events(blocks_of(self@.graph.blocks, self@.followed)),
    {
    }

    /// A node without blocks, with an empty ledger: no events, no accounts,
    /// no followed chain, and a settled graph whose winning chain is empty.
    pub fn new() -> (node: ValidatorNode)
        ensures
            node.wf(),
            node@.followed == Seq::<BlockId>::empty(),
            node@.ledger.events == Seq::<EventView>::empty(),
            node@.ledger.accounts == Map::<UserId, AccountView>::empty(),
            node@.graph.blocks == Map::<BlockId, BlockView>::empty(),
            node@.graph.winning_chain == Seq::<BlockView>::empty(),
            settled(node@.graph),
    {
        let node = ValidatorNode {
            ledger: Ledger::new(),
            blocks: BlockGraph::new(),
            followed: Vec::new(),
        };
        assert(blocks_of(node@.graph.blocks, node@.followed) =~= Seq::<BlockView>::empty());
        node
    }

    /// The ledger of the followed chain.
    pub fn ledger(&self) -> (ledger: &Ledger)
        ensures
            ledger@ == self@.ledger,
            self.wf() ==> ledger.wf(),
    {
        &self.ledger
    }

    /// The graph of all blocks that were taken in.
    pub fn blocks(&self) -> (blocks: &BlockGraph)
        ensures
            blocks@ == self@.graph,
            self.wf() ==> blocks.wf(),
    {
        &self.blocks
    }

    /// The ids of the chain whose events the ledger holds, root first.
    pub fn followed_chain(&self) -> (followed: &Vec<BlockId>)
        ensures
            followed@ == self@.followed,
    {
        &self.followed
    }

    /// Replays the best chain that does not end in one of `avoid`, and the
    /// next best when that fails, until one passes or none is left.
    fn rebuild<F: Fn(TransferVerifierArgs) -> bool>(
        &mut self,
        avoid: Vec<BlockId>,
        transfer_verifier: &F,
    )
        requires
            old(self).blocks.wf(),
            forall|args: TransferVerifierArgs| call_requires(*transfer_verifier, (args,)),
            forall|i: int|
                0 <= i < avoid.len() ==> tip_fails(
                    *transfer_verifier,
                    old(self)@.graph.blocks,
                    #[trigger] avoid[i],
                ),
        ensures
            final(self).wf(),
            final(self)@.graph == old(self)@.graph,
            follows_best(*transfer_verifier, final(self)@.graph.blocks, final(self)@.followed),
    {
        let mut avoid = avoid;
        let ghost blocks = self@.graph.blocks;
        proof {
            self.blocks.lemma_wf();
        }
        loop
            invariant
                self.blocks.wf(),
                self@.graph == old(self)@.graph,
                blocks == self@.graph.blocks,
                blocks.dom().finite(),
                forall|args: TransferVerifierArgs| call_requires(*transfer_verifier, (args,)),
                forall|i: int|
                    0 <= i < avoid.len() ==> tip_fails(
                        *transfer_verifier,
                        blocks,
                        #[trigger] avoid[i],
                    ),
            decreases blocks.dom().difference(avoid@.to_set()).len(),
        {
            let chain = self.blocks.best_chain_avoiding(&avoid);
            let ids = ids_of(&chain);
            proof {
                assert(chain_views(chain@) =~= blocks_of(blocks, ids@));
                assert forall|other: Seq<BlockId>|
                    #[trigger] is_chain(blocks, other) && outranks(other, ids@) implies chain_fails(
                    *transfer_verifier,
                    blocks_of(blocks, other),
                ) by {
                    if !avoid@.to_set().contains(other.last()) {
                        assert(is_candidate(blocks, avoid@.to_set(), other));
                    } else {
                        let i = choose|i: int| 0 <= i < avoid.len() && avoid[i] == other.last();
                        assert(tip_fails(*transfer_verifier, blocks, avoid[i]));
                    }
                }
            }
            if chain.len() == 0 {
                self.ledger = Ledger::new();
                self.followed = ids;
                proof {
                    assert(blocks_of(blocks, ids@) =~= Seq::<BlockView>::empty());
                }
                return ;
            }
            match replay_chain(&chain, transfer_verifier) {
                Some(ledger) => {
                    self.ledger = ledger;
                    self.followed = ids;
                    return ;
                },
                None => {
                    let tip = chain[chain.len() - 1].id();
                    let ghost listed = avoid@;
                    let ghost before = avoid@.to_set();
                    proof {
                        assert(tip == ids@.last());
                        assert(is_candidate(blocks, before, ids@));
                        assert(blocks.contains_key(tip));
                        assert forall|other: Seq<BlockId>|
                            #[trigger] is_chain(blocks, other) && other.last()
                                == tip implies chain_fails(
                            *transfer_verifier,
                            blocks_of(blocks, other),
                        ) by {
                            lemma_path_determined_by_end(blocks, other, ids@);
                        }
                    }
                    avoid.push(tip);
                    proof {
                        assert(avoid@ == listed.push(tip));
                        assert forall|id: BlockId|
                            avoid@.to_set().contains(id) <==> before.insert(tip).contains(id) by {
                            if listed.contains(id) {
                                let i = choose|i: int| 0 <= i < listed.len() && listed[i] == id;
                                assert(avoid@[i] == id);
                            }
                            if id == tip {
                                assert(avoid@[listed.len() as int] == id);
                            }
                        }
                        assert(avoid@.to_set() =~= before.insert(tip));
                        assert(blocks.dom().difference(avoid@.to_set()) =~= blocks.dom().difference(
                            before,
                        ).remove(tip));
                    }
                },
            }
        }
    }
}


impl ValidatorNode {
    /// Takes a block in.
    ///
    /// `orbit` records, step by step, whether the orbit of the block's
    /// proof-of-work candidate has left the corridor of the puzzle that
    /// belongs to the block's id, and `target_iterations` is the step count of
    /// that puzzle. A block whose work is invalid is turned away, and nothing
    /// changes. Any other block joins the graph, and the ledger is brought up
    /// to date: by replaying the block alone where it extends the followed
    /// chain at the tip of the winning chain, and else by replaying the best
    /// chain that passes.
    ///
    /// The id of the block must not be taken by a different block.
    pub fn ingest_block<F: Fn(TransferVerifierArgs) -> bool>(
        &mut self,
        block: Block,
        orbit: &Vec<bool>,
        target_iterations: u16,
        transfer_verifier: &F,
    ) -> (outcome: Result<(), BlockIngestError>)
        requires
            old(self).wf(),
            forall|args: TransferVerifierArgs| call_requires(*transfer_verifier, (args,)),
            work_verdict(orbit@, target_iterations as nat) is Ok ==> add_block_verdict(
                old(self)@.graph,
                block@,
            ) is Ok,
        ensures
            final(self).wf(),
            match work_verdict(orbit@, target_iterations as nat) {
                Err(error) => {
                    &&& outcome == Err::<(), BlockIngestError>(BlockIngestError::DoWorkError(error))
                    &&& *final(self) == *old(self)
                },
                Ok(()) => {
                    &&& outcome is Ok
                    &&& is_add_block(old(self)@.graph, block@, final(self)@.graph)
                    &&& is_ingested(*transfer_verifier, old(self)@, block@, final(self)@)
                },
            },
    {
        match check_work(orbit, target_iterations) {
            Ok(()) => {},
            Err(error) => {
                return Err(BlockIngestError::DoWorkError(error));
            },
        }
        let id = block.id();
        let parent = block.parent();
        let ghost before = self@;
        let ghost offered = block@;
        proof {
            self.blocks.lemma_wf();
        }
        let added = self.blocks.add_block(block);
        proof {
            self.blocks.lemma_wf();
        }
        match added {
            Ok(AddBlockOk::Noop) => Ok(()),
            Ok(AddBlockOk::CanAddNewEventsToLedger) => {
                let length = self.followed.len();
                if length > 0 && parent == Some(self.followed[length - 1]) {
                    proof {
                        lemma_followed_grows(before.graph.blocks, before.followed, offered);
                    }
                    let stored = self.blocks.block(id).unwrap();
                    match self.ledger.extend_with_block(id, stored.events(), transfer_verifier) {
                        Ok(()) => {
                            self.followed.push(id);
                            proof {
                                let cached = chain_ids(before.graph.winning_chain);
                                assert(cached.last() == before.graph.winning_chain.last().id);
                                lemma_path_determined_by_end(
                                    before.graph.blocks,
                                    before.followed,
                                    cached,
                                );
                                assert(chain_ids(self@.graph.winning_chain) =~= cached.push(id));
                                let chain = blocks_of(self@.graph.blocks, self@.followed);
                                assert(chain.drop_last() =~= blocks_of(
                                    before.graph.blocks,
                                    before.followed,
                                ));
                            }
                        },
                        Err(_) => {
                            let mut avoid: Vec<BlockId> = Vec::new();
                            avoid.push(id);
                            proof {
                                let blocks = self@.graph.blocks;
                                let longer = before.followed.push(id);
                                assert forall|chain: Seq<BlockId>|
                                    #[trigger] is_chain(blocks, chain) && chain.last()
                                        == id implies chain_fails(
                                    *transfer_verifier,
                                    blocks_of(blocks, chain),
                                ) by {
                                    lemma_path_determined_by_end(blocks, chain, longer);
                                    let views = blocks_of(blocks, chain);
                                    let k = views.len() - 1;
                                    assert(views.take(k) =~= blocks_of(
                                        before.graph.blocks,
                                        before.followed,
                                    ));
                                    assert(views[k] == offered);
                                }
                            }
                            self.rebuild(avoid, transfer_verifier);
                        },
                    }
                } else {
                    self.rebuild(Vec::new(), transfer_verifier);
                }
                Ok(())
            },
            Ok(AddBlockOk::MustRebuildCache) => {
                self.rebuild(Vec::new(), transfer_verifier);
                Ok(())
            },
            Err(_) => Ok(()),
        }
    }
}

} // verus!
