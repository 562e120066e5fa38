//! Blocks, the graph that holds them, and the rule that picks the winning
//! chain.
//!
//! Every block names at most one parent, so the blocks form a forest once
//! their parents have arrived. A chain is a path from a block without a parent
//! down to a block without children. The winning chain is the longest chain;
//! among chains of equal length the one with the smaller first id wins, then
//! the one with the smaller last id.

use std::collections::HashMap;
use vstd::prelude::*;
use vstd::std_specs::hash::spec_keys_iter;
use vstd::std_specs::iter::IteratorSpec;

use crate::graph::{
    add_edge, add_node, all_simple_paths, at_most_one, count_neighbors, graph_edges, graph_nodes,
    is_simple_path, new_graph, sorted, successors, IdGraph,
};
use crate::ledger::{event_views, EventView, LedgerEvent};

verus! {

broadcast use vstd::std_specs::hash::group_hash_axioms;

/// The token that names a block.
pub type BlockId = u64;

/// A batch of events with its place in the graph.
#[derive(Debug)]
pub struct Block {
    parent: Option<BlockId>,
    id: BlockId,
    events: Vec<LedgerEvent>,
}

/// The mathematical content of a [`Block`].
pub struct BlockView {
    pub parent: Option<BlockId>,
    pub id: BlockId,
    pub events: Seq<EventView>,
}

impl View for Block {
    type V = BlockView;

    closed spec fn view(&self) -> BlockView {
        BlockView { parent: self.parent, id: self.id, events: event_views(self.events@) }
    }
}

impl Clone for Block {
    fn clone(&self) -> (copy: Self)
        ensures
            copy@ == self@,
    {
        let mut events: Vec<LedgerEvent> = Vec::new();
        let mut at: usize = 0;
        while at < self.events.len()
            invariant
                at <= self.events.len(),
                events.len() == at,
                forall|i: int| 0 <= i < at ==> events[i]@ == self.events[i]@,
            decreases self.events.len() - at,
        {
            events.push(self.events[at].clone());
            at += 1;
        }
        let copy = Block { parent: self.parent, id: self.id, events };
        assert(copy@.events =~= self@.events);
        copy
    }
}

impl Block {
    /// A block with the given parent, id and events.
    pub fn new(parent: Option<BlockId>, id: BlockId, events: Vec<LedgerEvent>) -> (block: Block)
        ensures
            block@ == (BlockView { parent, id, events: event_views(events@) }),
    {
        Block { parent, id, events }
    }

    /// The id of the block that this one extends, if any.
    pub fn parent(&self) -> (parent: Option<BlockId>)
        ensures
            parent == self@.parent,
    {
        self.parent
    }

    /// The id of this block.
    pub fn id(&self) -> (id: BlockId)
        ensures
            id == self@.id,
    {
        self.id
    }

    /// The events of this block, in order.
    pub fn events(&self) -> (events: &Vec<LedgerEvent>)
        ensures
            event_views(events@) == self@.events,
    {
        &self.events
    }

    /// Whether two blocks have the same parent, id and events.
    pub fn same_as(&self, other: &Block) -> (same: bool)
        ensures
            same == (self@ == other@),
    {
        if self.parent != other.parent || self.id != other.id || self.events.len()
            != other.events.len() {
            assert(self@.events.len() == self.events.len());
            assert(other@.events.len() == other.events.len());
            return false;
        }
        let mut at: usize = 0;
        while at < self.events.len()
            invariant
                self.events.len() == other.events.len(),
                at <= self.events.len(),
                forall|i: int| 0 <= i < at ==> self.events[i]@ == other.events[i]@,
            decreases self.events.len() - at,
        {
            if !self.events[at].same_as(&other.events[at]) {
                assert(self@.events[at as int] == self.events[at as int]@);
                assert(other@.events[at as int] == other.events[at as int]@);
                return false;
            }
            at += 1;
        }
        assert(self@.events =~= other@.events);
        true
    }
}

/// The blocks of a graph, by id.
pub type Blocks = Map<BlockId, BlockView>;

/// Every block is filed under its own id.
pub open spec fn filed_by_id(blocks: Blocks) -> bool {
    forall|id: BlockId| #[trigger] blocks.contains_key(id) ==> blocks[id].id == id
}

/// `id` names a block without a parent.
pub open spec fn is_root(blocks: Blocks, id: BlockId) -> bool {
    blocks.contains_key(id) && blocks[id].parent is None
}

/// `child` is a block whose parent is `id`.
pub open spec fn is_child_of(blocks: Blocks, id: BlockId, child: BlockId) -> bool {
    blocks.contains_key(child) && blocks[child].parent == Some(id)
}

/// `id` names a block that no block has as its parent.
pub open spec fn is_leaf(blocks: Blocks, id: BlockId) -> bool {
    blocks.contains_key(id) && forall|child: BlockId| !is_child_of(blocks, id, child)
}

/// `path` starts at a root and steps from parent to child.
pub open spec fn is_path(blocks: Blocks, path: Seq<BlockId>) -> bool {
    &&& path.len() > 0
    &&& is_root(blocks, path.first())
    &&& forall|i: int| 0 < i < path.len() ==> is_child_of(blocks, path[i - 1], #[trigger] path[i])
}

/// `chain` is a path that ends in a leaf.
pub open spec fn is_chain(blocks: Blocks, chain: Seq<BlockId>) -> bool {
    is_path(blocks, chain) && is_leaf(blocks, chain.last())
}

/// `challenger` is strictly preferred to `holder`: it is longer, or as long
/// and first in the order of the pairs of first and last id.
pub open spec fn outranks(challenger: Seq<BlockId>, holder: Seq<BlockId>) -> bool {
    ||| challenger.len() > holder.len()
    ||| {
        &&& challenger.len() == holder.len()
        &&& holder.len() > 0
        &&& {
            ||| challenger.first() < holder.first()
            ||| challenger.first() == holder.first() && challenger.last() < holder.last()
        }
    }
}

/// `chain` is the chain that the fork-choice rule picks among `blocks`: a
/// chain that no chain outranks, or the empty sequence where there is no
/// chain at all.
pub open spec fn is_winning_chain(blocks: Blocks, chain: Seq<BlockId>) -> bool {
    &&& chain.len() > 0 ==> is_chain(blocks, chain)
    &&& forall|other: Seq<BlockId>| #[trigger] is_chain(blocks, other) ==> !outranks(other, chain)
}

/// `chain` is a chain whose tip is not among `avoided`.
pub open spec fn is_candidate(blocks: Blocks, avoided: Set<BlockId>, chain: Seq<BlockId>) -> bool {
    is_chain(blocks, chain) && !avoided.contains(chain.last())
}

/// `chain` is the chain that the fork-choice rule picks among the chains of
/// `blocks` whose tip is not among `avoided`, or the empty sequence where
/// there is none.
pub open spec fn is_best_chain(blocks: Blocks, avoided: Set<BlockId>, chain: Seq<BlockId>) -> bool {
    &&& chain.len() > 0 ==> is_candidate(blocks, avoided, chain)
    &&& forall|other: Seq<BlockId>| #[trigger]
        is_candidate(blocks, avoided, other) ==> !outranks(other, chain)
}

/// A prefix of a path is a path.
proof fn lemma_path_prefix(blocks: Blocks, path: Seq<BlockId>, len: int)
    requires
        is_path(blocks, path),
        0 < len <= path.len(),
    ensures
        is_path(blocks, path.take(len)),
{
    let prefix = path.take(len);
    assert forall|i: int| 0 < i < prefix.len() implies is_child_of(
        blocks,
        prefix[i - 1],
        #[trigger] prefix[i],
    ) by {
        assert(is_child_of(blocks, path[i - 1], path[i]));
    }
}

/// There is only one path to a block: two paths with the same end are the
/// same path.
pub proof fn lemma_path_determined_by_end(blocks: Blocks, left: Seq<BlockId>, right: Seq<BlockId>)
    requires
        is_path(blocks, left),
        is_path(blocks, right),
        left.last() == right.last(),
    ensures
        left == right,
    decreases left.len(),
{
    if left.len() == 1 {
        if right.len() > 1 {
            assert(is_child_of(blocks, right[right.len() - 2], right[right.len() - 1]));
        }
        assert(left =~= right);
    } else {
        assert(is_child_of(blocks, left[left.len() - 2], left[left.len() - 1]));
        if right.len() > 1 {
            assert(is_child_of(blocks, right[right.len() - 2], right[right.len() - 1]));
            lemma_path_prefix(blocks, left, left.len() - 1);
            lemma_path_prefix(blocks, right, right.len() - 1);
            lemma_path_determined_by_end(
                blocks,
                left.take(left.len() - 1),
                right.take(right.len() - 1),
            );
            assert(left =~= left.take(left.len() - 1).push(left.last()));
            assert(right =~= right.take(right.len() - 1).push(right.last()));
        }
    }
}

/// A path visits no block twice.
pub proof fn lemma_path_no_duplicates(blocks: Blocks, path: Seq<BlockId>)
    requires
        is_path(blocks, path),
    ensures
        path.no_duplicates(),
{
    assert forall|i: int, j: int| 0 <= i < path.len() && 0 <= j < path.len() && i != j implies path[i]
        != path[j] by {
        if path[i] == path[j] {
            lemma_path_prefix(blocks, path, i + 1);
            lemma_path_prefix(blocks, path, j + 1);
            lemma_path_determined_by_end(blocks, path.take(i + 1), path.take(j + 1));
            assert(path.take(i + 1).len() == path.take(j + 1).len());
        }
    }
}

/// The fork-choice rule picks one chain: two winning chains of the same
/// blocks are the same chain.
pub proof fn lemma_winning_chain_unique(blocks: Blocks, left: Seq<BlockId>, right: Seq<BlockId>)
    requires
        is_winning_chain(blocks, left),
        is_winning_chain(blocks, right),
    ensures
        left == right,
{
    if left.len() == 0 {
        if right.len() > 0 {
            assert(is_chain(blocks, right));
            assert(outranks(right, left));
        }
        assert(left =~= right);
    } else {
        assert(is_chain(blocks, left));
        assert(!outranks(left, right));
        assert(is_chain(blocks, right));
        assert(!outranks(right, left));
        lemma_path_determined_by_end(blocks, left, right);
    }
}


/// The views of the blocks in a table.
pub open spec fn block_views(blocks: Map<BlockId, Block>) -> Blocks {
    blocks.map_values(|block: Block| block@)
}

/// The views of a sequence of blocks.
pub open spec fn chain_views(chain: Seq<Block>) -> Seq<BlockView> {
    chain.map_values(|block: Block| block@)
}

/// The ids of a sequence of blocks.
pub open spec fn chain_ids(chain: Seq<BlockView>) -> Seq<BlockId> {
    chain.map_values(|block: BlockView| block.id)
}

/// The edges that `blocks` ask for: one from its parent to each block that
/// names one.
pub open spec fn parent_edges(blocks: Blocks) -> Set<(BlockId, BlockId)> {
    Set::new(|edge: (BlockId, BlockId)| is_child_of(blocks, edge.0, edge.1))
}

/// `ascending` lists exactly the ids that satisfy `wanted`, smallest first.
pub open spec fn lists_ascending(ascending: Seq<BlockId>, wanted: spec_fn(BlockId) -> bool) -> bool {
    &&& forall|i: int, j: int| 0 <= i < j < ascending.len() ==> ascending[i] < ascending[j]
    &&& forall|id: BlockId| ascending.contains(id) <==> wanted(id)
}

/// Sorting a list without repetitions gives a strictly ascending list of the
/// same numbers.
proof fn lemma_sorted_listing(input: Seq<BlockId>, ascending: Seq<BlockId>)
    requires
        input.no_duplicates(),
        ascending.to_multiset() == input.to_multiset(),
        forall|i: int, j: int| 0 <= i < j < ascending.len() ==> ascending[i] <= ascending[j],
    ensures
        forall|i: int, j: int| 0 <= i < j < ascending.len() ==> ascending[i] < ascending[j],
        forall|id: BlockId| ascending.contains(id) <==> input.contains(id),
{
    input.to_multiset_ensures();
    ascending.to_multiset_ensures();
    input.lemma_multiset_has_no_duplicates();
    ascending.lemma_multiset_has_no_duplicates_conv();
    assert forall|id: BlockId| ascending.contains(id) <==> input.contains(id) by {
        assert(ascending.contains(id) <==> ascending.to_multiset().count(id) > 0);
        assert(input.contains(id) <==> input.to_multiset().count(id) > 0);
    }
}

/// A block is a leaf exactly when no edge leaves it.
proof fn lemma_leaf_has_no_successors(blocks: Blocks, id: BlockId)
    requires
        blocks.dom().finite(),
        blocks.contains_key(id),
    ensures
        is_leaf(blocks, id) <==> successors(parent_edges(blocks), id).len() == 0,
{
    let children = successors(parent_edges(blocks), id);
    assert(children.subset_of(blocks.dom())) by {
        assert forall|child: BlockId| children.contains(child) implies blocks.dom().contains(
            child,
        ) by {
            assert(is_child_of(blocks, id, child));
        }
    }
    vstd::set_lib::lemma_len_subset(children, blocks.dom());
    if is_leaf(blocks, id) {
        assert(children =~= Set::<BlockId>::empty());
    } else {
        let child = choose|child: BlockId| is_child_of(blocks, id, child);
        assert(children.contains(child));
        if children.len() == 0 {
            children.lemma_len0_is_empty();
        }
    }
}

/// Between a root and a leaf, the simple paths along the parent edges are the
/// chains.
proof fn lemma_simple_path_is_chain(blocks: Blocks, root: BlockId, leaf: BlockId, path: Seq<BlockId>)
    requires
        is_root(blocks, root),
        is_leaf(blocks, leaf),
        is_simple_path(parent_edges(blocks), root, leaf, path),
    ensures
        is_chain(blocks, path),
{
    assert forall|i: int| 0 < i < path.len() implies is_child_of(
        blocks,
        path[i - 1],
        #[trigger] path[i],
    ) by {
        assert(parent_edges(blocks).contains((path[i - 1], path[i - 1 + 1])));
    }
}

/// A chain of two or more blocks is a simple path along the parent edges.
proof fn lemma_chain_is_simple_path(blocks: Blocks, chain: Seq<BlockId>)
    requires
        is_chain(blocks, chain),
        chain.len() >= 2,
    ensures
        is_simple_path(parent_edges(blocks), chain.first(), chain.last(), chain),
{
    lemma_path_no_duplicates(blocks, chain);
    assert forall|i: int| 0 <= i < chain.len() - 1 implies parent_edges(blocks).contains(
        (#[trigger] chain[i], chain[i + 1]),
    ) by {
        assert(is_child_of(blocks, chain[i + 1 - 1], chain[i + 1]));
    }
}

/// The pair of `chain`'s first and last id comes before position
/// `(root, leaf)` when all pairs of `roots` and `leaves` are gone through row
/// by row.
pub open spec fn met_before(
    chain: Seq<BlockId>,
    roots: Seq<BlockId>,
    leaves: Seq<BlockId>,
    root: int,
    leaf: int,
) -> bool {
    exists|a: int, b: int|
        {
            &&& 0 <= a < roots.len()
            &&& 0 <= b < leaves.len()
            &&& #[trigger] roots[a] == chain.first()
            &&& #[trigger] leaves[b] == chain.last()
            &&& (a < root || (a == root && b < leaf))
        }
}

/// `winner` is the best of the candidates met before position `(root, leaf)`.
pub open spec fn leads(
    blocks: Blocks,
    avoided: Set<BlockId>,
    roots: Seq<BlockId>,
    leaves: Seq<BlockId>,
    winner: Seq<BlockId>,
    root: int,
    leaf: int,
) -> bool {
    &&& winner.len() > 0 ==> is_candidate(blocks, avoided, winner) && met_before(
        winner,
        roots,
        leaves,
        root,
        leaf,
    )
    &&& forall|other: Seq<BlockId>|
        #[trigger] is_candidate(blocks, avoided, other) && met_before(
            other,
            roots,
            leaves,
            root,
            leaf,
        ) ==> !outranks(other, winner)
}

/// The ids of the chain that a search between two blocks came back with.
pub open spec fn found_chain(found: Option<Vec<BlockId>>) -> Option<Seq<BlockId>> {
    match found {
        Some(chain) => Some(chain@),
        None => None,
    }
}

/// One step of the search: having dealt with the candidate between
/// `roots[root]` and `leaves[leaf]`, if there is one, the search leads at the
/// next position.
proof fn lemma_search_step(
    blocks: Blocks,
    avoided: Set<BlockId>,
    roots: Seq<BlockId>,
    leaves: Seq<BlockId>,
    winner: Seq<BlockId>,
    root: int,
    leaf: int,
    found: Option<Seq<BlockId>>,
    next: Seq<BlockId>,
)
    requires
        forall|i: int, j: int| 0 <= i < j < roots.len() ==> roots[i] < roots[j],
        forall|i: int, j: int| 0 <= i < j < leaves.len() ==> leaves[i] < leaves[j],
        0 <= root < roots.len(),
        0 <= leaf < leaves.len(),
        leads(blocks, avoided, roots, leaves, winner, root, leaf),
        match found {
            Some(chain) => is_candidate(blocks, avoided, chain) && chain.first() == roots[root]
                && chain.last() == leaves[leaf],
            None => forall|chain: Seq<BlockId>| #[trigger]
                is_candidate(blocks, avoided, chain) ==> !(chain.first() == roots[root]
                    && chain.last() == leaves[leaf]),
        },
        next == (if found is Some && found->0.len() > winner.len() {
            found->0
        } else {
            winner
        }),
    ensures
        leads(blocks, avoided, roots, leaves, next, root, leaf + 1),
{
    if next.len() > 0 {
        if found is Some && found->0.len() > winner.len() {
            assert(roots[root] == next.first() && leaves[leaf] == next.last());
        } else {
            let (a, b) = choose|a: int, b: int|
                {
                    &&& 0 <= a < roots.len()
                    &&& 0 <= b < leaves.len()
                    &&& #[trigger] roots[a] == winner.first()
                    &&& #[trigger] leaves[b] == winner.last()
                    &&& (a < root || (a == root && b < leaf))
                };
            assert(roots[a] == next.first() && leaves[b] == next.last());
        }
        assert(met_before(next, roots, leaves, root, leaf + 1));
    }
    assert forall|other: Seq<BlockId>|
        #[trigger] is_candidate(blocks, avoided, other) && met_before(
            other,
            roots,
            leaves,
            root,
            leaf + 1,
        ) implies !outranks(other, next) by {
        let (a, b) = choose|a: int, b: int|
            {
                &&& 0 <= a < roots.len()
                &&& 0 <= b < leaves.len()
                &&& #[trigger] roots[a] == other.first()
                &&& #[trigger] leaves[b] == other.last()
                &&& (a < root || (a == root && b < leaf + 1))
            };
        if a == root && b == leaf {
            let chain = found->0;
            lemma_path_determined_by_end(blocks, other, chain);
            if next != chain {
                let (c, d) = choose|c: int, d: int|
                    {
                        &&& 0 <= c < roots.len()
                        &&& 0 <= d < leaves.len()
                        &&& #[trigger] roots[c] == winner.first()
                        &&& #[trigger] leaves[d] == winner.last()
                        &&& (c < root || (c == root && d < leaf))
                    };
                if c < root {
                    assert(roots[c] < roots[root]);
                } else {
                    assert(leaves[d] < leaves[leaf]);
                }
            }
        } else {
            assert(roots[a] == other.first() && leaves[b] == other.last());
            assert(met_before(other, roots, leaves, root, leaf));
            assert(!outranks(other, winner));
        }
    }
}

/// What became of a block that was offered to the graph.
#[derive(Debug, Clone, Copy, PartialEq, Eq, Structural)]
pub enum AddBlockOk {
    /// The block extends the tip of the winning chain, which has grown by it.
    CanAddNewEventsToLedger,
    /// The block has gone elsewhere, and the winning chain was worked out
    /// again.
    MustRebuildCache,
    /// The very same block was there already.
    Noop,
}

/// Why a block was not taken into the graph.
#[derive(Debug, Clone, Copy, PartialEq, Eq, Structural)]
pub enum AddBlockError {
    /// A block with the same id but different contents is already in the graph.
    WouldClobber,
}

/// Every block is filed under its own id, and the cached chain is a path
/// made of blocks of the graph.
pub open spec fn chain_in_graph(graph: BlockGraphView) -> bool {
    &&& filed_by_id(graph.blocks)
    &&& graph.winning_chain.len() > 0 ==> is_path(graph.blocks, chain_ids(graph.winning_chain))
    &&& forall|i: int|
        0 <= i < graph.winning_chain.len() ==> graph.blocks[(#[trigger] graph.winning_chain[i]).id]
            == graph.winning_chain[i]
}

/// The cached chain of `graph` is the chain that the fork-choice rule picks
/// among its blocks.
pub open spec fn settled(graph: BlockGraphView) -> bool {
    is_winning_chain(graph.blocks, chain_ids(graph.winning_chain))
}

/// `block` names the tip of `chain` as its parent.
pub open spec fn extends_tip(chain: Seq<BlockView>, block: BlockView) -> bool {
    chain.len() > 0 && block.parent == Some(chain.last().id)
}

/// What the graph answers when `block` is offered to it.
pub open spec fn add_block_verdict(graph: BlockGraphView, block: BlockView) -> Result<
    AddBlockOk,
    AddBlockError,
> {
    if graph.blocks.contains_key(block.id) {
        if graph.blocks[block.id] == block {
            Ok(AddBlockOk::Noop)
        } else {
            Err(AddBlockError::WouldClobber)
        }
    } else if extends_tip(graph.winning_chain, block) {
        Ok(AddBlockOk::CanAddNewEventsToLedger)
    } else {
        Ok(AddBlockOk::MustRebuildCache)
    }
}

/// `after` is the graph that offering `block` to `before` leaves behind.
///
/// A block that is there already, or whose id is taken, changes nothing. A
/// block that extends the tip of the cached chain is appended to it. For any
/// other block the fork-choice rule is applied afresh.
pub open spec fn is_add_block(before: BlockGraphView, block: BlockView, after: BlockGraphView) -> bool {
    match add_block_verdict(before, block) {
        Ok(AddBlockOk::CanAddNewEventsToLedger) => {
            &&& after.blocks == before.blocks.insert(block.id, block)
            &&& after.winning_chain == before.winning_chain.push(block)
        },
        Ok(AddBlockOk::MustRebuildCache) => {
            &&& after.blocks == before.blocks.insert(block.id, block)
            &&& settled(after)
            &&& forall|i: int|
                0 <= i < after.winning_chain.len() ==> after.blocks[(
                #[trigger] after.winning_chain[i]).id] == after.winning_chain[i]
        },
        _ => after == before,
    }
}

/// No block of `blocks` names `id` as its parent.
pub open spec fn is_childless(blocks: Blocks, id: BlockId) -> bool {
    forall|child: BlockId| !is_child_of(blocks, id, child)
}

/// A path stays a path when a block with a new id joins the graph.
pub proof fn lemma_path_survives_insert(blocks: Blocks, path: Seq<BlockId>, block: BlockView)
    requires
        is_path(blocks, path),
        !blocks.contains_key(block.id),
    ensures
        is_path(blocks.insert(block.id, block), path),
{
    let grown = blocks.insert(block.id, block);
    assert forall|i: int| 0 < i < path.len() implies is_child_of(
        grown,
        path[i - 1],
        #[trigger] path[i],
    ) by {
        assert(is_child_of(blocks, path[i - 1], path[i]));
    }
}

/// Appending a block to the tip of the winning chain gives the winning chain
/// of the grown graph, provided that no block was waiting for the new one as
/// its parent.
pub proof fn lemma_append_to_tip(blocks: Blocks, chain: Seq<BlockId>, block: BlockView)
    requires
        !blocks.contains_key(block.id),
        chain.len() > 0,
        is_winning_chain(blocks, chain),
        block.parent == Some(chain.last()),
        is_childless(blocks, block.id),
    ensures
        is_winning_chain(blocks.insert(block.id, block), chain.push(block.id)),
{
    let grown = blocks.insert(block.id, block);
    let longer = chain.push(block.id);
    assert(is_chain(blocks, chain));
    lemma_path_survives_insert(blocks, chain, block);
    if chain.len() > 1 {
        assert(is_child_of(blocks, chain[chain.len() - 2], chain[chain.len() - 1]));
    }
    assert(blocks.contains_key(chain.last()));
    assert(is_path(grown, longer)) by {
        assert forall|i: int| 0 < i < longer.len() implies is_child_of(
            grown,
            longer[i - 1],
            #[trigger] longer[i],
        ) by {
            if i < chain.len() {
                assert(is_child_of(grown, chain[i - 1], chain[i]));
            }
        }
    }
    assert(is_leaf(grown, block.id)) by {
        assert forall|child: BlockId| !is_child_of(grown, block.id, child) by {
            if child != block.id {
                assert(!is_child_of(blocks, block.id, child));
            }
        }
    }
    assert forall|other: Seq<BlockId>| #[trigger] is_chain(grown, other) implies !outranks(
        other,
        longer,
    ) by {
        if other.last() == block.id {
            lemma_path_determined_by_end(grown, other, longer);
        } else {
            assert forall|i: int| 0 <= i < other.len() implies other[i] != block.id by {
                if other[i] == block.id {
                    assert(is_child_of(grown, other[i + 1 - 1], other[i + 1]));
                }
            }
            assert(is_path(blocks, other)) by {
                assert forall|i: int| 0 < i < other.len() implies is_child_of(
                    blocks,
                    other[i - 1],
                    #[trigger] other[i],
                ) by {
                    assert(is_child_of(grown, other[i - 1], other[i]));
                }
            }
            assert(is_leaf(blocks, other.last())) by {
                assert forall|child: BlockId| !is_child_of(blocks, other.last(), child) by {
                    assert(!is_child_of(grown, other.last(), child));
                }
            }
            assert(is_chain(blocks, other));
            assert(!outranks(other, chain));
        }
    }
}

/// Offering a block to a graph leaves the cached chain a path made of blocks
/// of the graph.
pub proof fn lemma_add_block_keeps_chain(
    before: BlockGraphView,
    block: BlockView,
    after: BlockGraphView,
)
    requires
        chain_in_graph(before),
        is_add_block(before, block, after),
    ensures
        chain_in_graph(after),
{
    match add_block_verdict(before, block) {
        Ok(AddBlockOk::CanAddNewEventsToLedger) => {
            let ids = chain_ids(before.winning_chain);
            assert(chain_ids(after.winning_chain) =~= ids.push(block.id));
            lemma_path_survives_insert(before.blocks, ids, block);
            assert forall|i: int| 0 < i < ids.len() + 1 implies is_child_of(
                after.blocks,
                ids.push(block.id)[i - 1],
                #[trigger] ids.push(block.id)[i],
            ) by {
                if i < ids.len() {
                    assert(is_child_of(after.blocks, ids[i - 1], ids[i]));
                }
            }
            assert forall|i: int| 0 <= i < after.winning_chain.len() implies after.blocks[(
            #[trigger] after.winning_chain[i]).id] == after.winning_chain[i] by {
                if i < before.winning_chain.len() {
                    assert(before.blocks[before.winning_chain[i].id] == before.winning_chain[i]);
                    assert(ids[i] == before.winning_chain[i].id);
                    if i > 0 {
                        assert(is_child_of(before.blocks, ids[i - 1], ids[i]));
                    }
                    assert(before.blocks.contains_key(ids[i]));
                }
            }
        },
        Ok(AddBlockOk::MustRebuildCache) => {},
        _ => {},
    }
}

/// Offering a block to a settled graph leaves a settled graph, unless the
/// block is appended to the tip while a child of it is in the graph already.
pub proof fn lemma_add_block_keeps_settled(
    before: BlockGraphView,
    block: BlockView,
    after: BlockGraphView,
)
    requires
        chain_in_graph(before),
        settled(before),
        is_add_block(before, block, after),
        add_block_verdict(before, block) == Ok::<AddBlockOk, AddBlockError>(
            AddBlockOk::CanAddNewEventsToLedger,
        ) ==> is_childless(before.blocks, block.id),
    ensures
        settled(after),
{
    if add_block_verdict(before, block) == Ok::<AddBlockOk, AddBlockError>(
        AddBlockOk::CanAddNewEventsToLedger,
    ) {
        let ids = chain_ids(before.winning_chain);
        assert(chain_ids(after.winning_chain) =~= ids.push(block.id));
        lemma_append_to_tip(before.blocks, ids, block);
    }
}

/// Offering the same block a second time changes nothing.
pub proof fn lemma_add_block_idempotent(
    before: BlockGraphView,
    block: BlockView,
    once: BlockGraphView,
    twice: BlockGraphView,
)
    requires
        add_block_verdict(before, block) is Ok,
        is_add_block(before, block, once),
        is_add_block(once, block, twice),
    ensures
        add_block_verdict(once, block) == Ok::<AddBlockOk, AddBlockError>(AddBlockOk::Noop),
        twice == once,
{
}

/// Of two different blocks with the same id the second is refused, and the
/// first stays in the graph as it was.
pub proof fn lemma_add_block_rejects_conflict(
    before: BlockGraphView,
    first: BlockView,
    second: BlockView,
    once: BlockGraphView,
    twice: BlockGraphView,
)
    requires
        first.id == second.id,
        first != second,
        add_block_verdict(before, first) is Ok,
        is_add_block(before, first, once),
        is_add_block(once, second, twice),
    ensures
        add_block_verdict(once, second) == Err::<AddBlockOk, AddBlockError>(
            AddBlockError::WouldClobber,
        ),
        twice == once,
        once.blocks[first.id] == first,
{
}

/// `states` are the graphs that an empty graph goes through when the blocks
/// `offered` are offered to it one after the other.
pub open spec fn is_history(states: Seq<BlockGraphView>, offered: Seq<BlockView>) -> bool {
    &&& states.len() == offered.len() + 1
    &&& states[0].blocks == Map::<BlockId, BlockView>::empty()
    &&& states[0].winning_chain == Seq::<BlockView>::empty()
    &&& forall|i: int|
        0 <= i < offered.len() ==> is_add_block(states[i], #[trigger] offered[i], states[i + 1])
}

/// In this history no block was appended to the tip of the winning chain
/// after one of its children had arrived.
pub open spec fn appends_childless(states: Seq<BlockGraphView>, offered: Seq<BlockView>) -> bool {
    forall|i: int|
        0 <= i < offered.len() && add_block_verdict(states[i], #[trigger] offered[i]) == Ok::<
            AddBlockOk,
            AddBlockError,
        >(AddBlockOk::CanAddNewEventsToLedger) ==> is_childless(states[i].blocks, offered[i].id)
}

/// Every graph of such a history is settled.
pub proof fn lemma_history_settled(
    states: Seq<BlockGraphView>,
    offered: Seq<BlockView>,
    upto: int,
)
    requires
        is_history(states, offered),
        appends_childless(states, offered),
        0 <= upto < states.len(),
    ensures
        chain_in_graph(states[upto]),
        settled(states[upto]),
    decreases upto,
{
    if upto == 0 {
        assert(chain_ids(states[0].winning_chain) =~= Seq::<BlockId>::empty());
        assert forall|other: Seq<BlockId>| !is_chain(states[0].blocks, other) by {
            if is_chain(states[0].blocks, other) {
                assert(states[0].blocks.contains_key(other.first()));
            }
        }
    } else {
        lemma_history_settled(states, offered, upto - 1);
        assert(is_add_block(states[upto - 1], offered[upto - 1], states[upto - 1 + 1]));
        lemma_add_block_keeps_chain(states[upto - 1], offered[upto - 1], states[upto]);
        lemma_add_block_keeps_settled(states[upto - 1], offered[upto - 1], states[upto]);
    }
}

/// The winning chain does not depend on the order in which the blocks
/// arrived: two histories that end with the same blocks end with the same
/// winning chain, provided that in neither a block was appended to the tip of
/// the winning chain after one of its children had arrived.
pub proof fn lemma_insertion_order_is_irrelevant(
    left_states: Seq<BlockGraphView>,
    left: Seq<BlockView>,
    right_states: Seq<BlockGraphView>,
    right: Seq<BlockView>,
)
    requires
        is_history(left_states, left),
        appends_childless(left_states, left),
        is_history(right_states, right),
        appends_childless(right_states, right),
        left_states.last().blocks == right_states.last().blocks,
    ensures
        left_states.last().winning_chain == right_states.last().winning_chain,
{
    let a = left_states.last();
    let b = right_states.last();
    lemma_history_settled(left_states, left, left_states.len() - 1);
    lemma_history_settled(right_states, right, right_states.len() - 1);
    lemma_winning_chain_unique(a.blocks, chain_ids(a.winning_chain), chain_ids(b.winning_chain));
    assert(a.winning_chain.len() == chain_ids(a.winning_chain).len());
    assert(b.winning_chain.len() == chain_ids(b.winning_chain).len());
    assert forall|i: int| 0 <= i < a.winning_chain.len() implies a.winning_chain[i]
        == b.winning_chain[i] by {
        assert(chain_ids(a.winning_chain)[i] == a.winning_chain[i].id);
        assert(chain_ids(b.winning_chain)[i] == b.winning_chain[i].id);
    }
    assert(a.winning_chain =~= b.winning_chain);
}

/// Keeps track of blocks and of the chain that wins among them.
///
/// Nothing is checked about what the blocks hold.
pub struct BlockGraph {
    block_ids_to_blocks: HashMap<BlockId, Block>,
    block_id_graph: IdGraph,
    winning_chain: Vec<Block>,
}

/// The mathematical content of a [`BlockGraph`].
pub struct BlockGraphView {
    /// The blocks, by id.
    pub blocks: Blocks,
    /// The cached winning chain, from its root to its tip.
    pub winning_chain: Seq<BlockView>,
}

impl View for BlockGraph {
    type V = BlockGraphView;

    closed spec fn view(&self) -> BlockGraphView {
        BlockGraphView {
            blocks: block_views(self.block_ids_to_blocks@),
            winning_chain: chain_views(self.winning_chain@),
        }
    }
}

impl BlockGraph {
    /// The table of blocks and the graph of ids agree.
    pub closed spec fn store_wf(&self) -> bool {
        &&& filed_by_id(self@.blocks)
        &&& graph_edges(self.block_id_graph) == parent_edges(self@.blocks)
        &&& forall|id: BlockId| #[trigger]
            self@.blocks.contains_key(id) ==> graph_nodes(self.block_id_graph).contains(id)
    }

    /// The graph is consistent, and the cached chain is a path through its
    /// blocks.
    pub closed spec fn wf(&self) -> bool {
        self.store_wf() && chain_in_graph(self@)
    }

    /// The cached chain is the chain that the fork-choice rule picks among
    /// the blocks of the graph.
    pub open spec fn is_settled(&self) -> bool {
        is_winning_chain(self@.blocks, chain_ids(self@.winning_chain))
    }

    /// What a well-formed graph offers to those who cannot look inside it.
    pub proof fn lemma_wf(&self)
        requires
            self.wf(),
        ensures
            chain_in_graph(self@),
            self@.blocks.dom().finite(),
    {
        assert(self@.blocks.dom() =~= self.block_ids_to_blocks@.dom());
    }

    /// The ids of all blocks, in no particular order.
    fn block_ids(&self) -> (ids: Vec<BlockId>)
        ensures
            ids@.no_duplicates(),
            forall|id: BlockId| ids@.contains(id) <==> self@.blocks.contains_key(id),
    {
        let mut ids: Vec<BlockId> = Vec::new();
        let ghost keys = spec_keys_iter(&self.block_ids_to_blocks).remaining().unref();
        for id in it: self.block_ids_to_blocks.keys()
            invariant
                it.seq().unref() == keys,
                ids@ == keys.take(it.index()),
        {
            ids.push(*id);
            assert(keys.take(it.index() + 1) =~= keys.take(it.index()).push(*id));
        }
        proof {
            assert(ids@ =~= keys);
            assert(keys.to_set() == self.block_ids_to_blocks@.dom());
            assert forall|id: BlockId| ids@.contains(id) <==> self@.blocks.contains_key(id) by {
                assert(keys.to_set().contains(id) <==> keys.contains(id));
            }
        }
        ids
    }
}


impl BlockGraph {
    /// The ids of the blocks without a parent, smallest first.
    fn root_blocks(&self) -> (roots: Vec<BlockId>)
        requires
            self.store_wf(),
        ensures
            lists_ascending(roots@, |id: BlockId| is_root(self@.blocks, id)),
    {
        let ids = self.block_ids();
        let mut roots: Vec<BlockId> = Vec::new();
        let ghost mut origin: Seq<int> = Seq::empty();
        let mut at: usize = 0;
        while at < ids.len()
            invariant
                at <= ids.len(),
                ids@.no_duplicates(),
                forall|id: BlockId| ids@.contains(id) <==> self@.blocks.contains_key(id),
                origin.len() == roots.len(),
                forall|i: int| 0 <= i < roots.len() ==> 0 <= #[trigger] origin[i] < at && roots[i] == ids[origin[i]],
                forall|i: int, j: int| 0 <= i < j < roots.len() ==> origin[i] < origin[j],
                forall|i: int| 0 <= i < roots.len() ==> is_root(self@.blocks, #[trigger] roots[i]),
                forall|k: int| 0 <= k < at && is_root(self@.blocks, #[trigger] ids[k]) ==> roots@.contains(ids[k]),
            decreases ids.len() - at,
        {
            let id = ids[at];
            assert(ids@.contains(id));
            let block = self.block_ids_to_blocks.get(&id).unwrap();
            if block.parent.is_none() {
                let ghost before = roots@;
                roots.push(id);
                proof {
                    origin = origin.push(at as int);
                    assert(roots@[roots.len() - 1] == id);
                    assert forall|k: int| 0 <= k < at + 1 && is_root(
                        self@.blocks,
                        #[trigger] ids[k],
                    ) implies roots@.contains(ids[k]) by {
                        if k < at {
                            assert(before.contains(ids[k]));
                            let i = choose|i: int| 0 <= i < before.len() && before[i] == ids[k];
                            assert(roots@[i] == ids[k]);
                        }
                    }
                }
            }
            at += 1;
        }
        proof {
            assert forall|i: int, j: int|
                0 <= i < roots.len() && 0 <= j < roots.len() && i != j implies roots[i] != roots[j] by {
                assert(origin[i] != origin[j]) by {
                    if i < j {
                        assert(origin[i] < origin[j]);
                    } else {
                        assert(origin[j] < origin[i]);
                    }
                }
            }
        }
        let ascending = sorted(roots);
        proof {
            lemma_sorted_listing(roots@, ascending@);
            assert forall|id: BlockId| ascending@.contains(id) <==> is_root(self@.blocks, id) by {
                if is_root(self@.blocks, id) {
                    assert(ids@.contains(id));
                }
            }
        }
        ascending
    }

    /// The ids of the blocks without children, smallest first.
    fn leaf_blocks(&self) -> (leaves: Vec<BlockId>)
        requires
            self.store_wf(),
        ensures
            lists_ascending(leaves@, |id: BlockId| is_leaf(self@.blocks, id)),
    {
        let ids = self.block_ids();
        let mut leaves: Vec<BlockId> = Vec::new();
        let ghost mut origin: Seq<int> = Seq::empty();
        let mut at: usize = 0;
        while at < ids.len()
            invariant
                at <= ids.len(),
                self.store_wf(),
                ids@.no_duplicates(),
                forall|id: BlockId| ids@.contains(id) <==> self@.blocks.contains_key(id),
                origin.len() == leaves.len(),
                forall|i: int| 0 <= i < leaves.len() ==> 0 <= #[trigger] origin[i] < at && leaves[i] == ids[origin[i]],
                forall|i: int, j: int| 0 <= i < j < leaves.len() ==> origin[i] < origin[j],
                forall|i: int| 0 <= i < leaves.len() ==> is_leaf(self@.blocks, #[trigger] leaves[i]),
                forall|k: int| 0 <= k < at && is_leaf(self@.blocks, #[trigger] ids[k]) ==> leaves@.contains(ids[k]),
            decreases ids.len() - at,
        {
            let id = ids[at];
            assert(ids@.contains(id));
            proof {
                assert(self@.blocks.dom() =~= self.block_ids_to_blocks@.dom());
                lemma_leaf_has_no_successors(self@.blocks, id);
            }
            if count_neighbors(&self.block_id_graph, id) == 0 {
                let ghost before = leaves@;
                leaves.push(id);
                proof {
                    origin = origin.push(at as int);
                    assert(leaves@[leaves.len() - 1] == id);
                    assert forall|k: int| 0 <= k < at + 1 && is_leaf(
                        self@.blocks,
                        #[trigger] ids[k],
                    ) implies leaves@.contains(ids[k]) by {
                        if k < at {
                            assert(before.contains(ids[k]));
                            let i = choose|i: int| 0 <= i < before.len() && before[i] == ids[k];
                            assert(leaves@[i] == ids[k]);
                        }
                    }
                }
            }
            at += 1;
        }
        proof {
            assert forall|i: int, j: int|
                0 <= i < leaves.len() && 0 <= j < leaves.len() && i != j implies leaves[i] != leaves[j] by {
                assert(origin[i] != origin[j]) by {
                    if i < j {
                        assert(origin[i] < origin[j]);
                    } else {
                        assert(origin[j] < origin[i]);
                    }
                }
            }
        }
        let ascending = sorted(leaves);
        proof {
            lemma_sorted_listing(leaves@, ascending@);
            assert forall|id: BlockId| ascending@.contains(id) <==> is_leaf(self@.blocks, id) by {
                if is_leaf(self@.blocks, id) {
                    assert(ids@.contains(id));
                }
            }
        }
        ascending
    }
}


impl BlockGraph {
    /// The chain between `root` and `leaf`, if there is one.
    fn chain_between(&self, root: BlockId, leaf: BlockId) -> (found: Option<Vec<BlockId>>)
        requires
            self.store_wf(),
            is_root(self@.blocks, root),
            is_leaf(self@.blocks, leaf),
        ensures
            match found {
                Some(chain) => is_chain(self@.blocks, chain@) && chain@.first() == root
                    && chain@.last() == leaf,
                None => forall|chain: Seq<BlockId>| #[trigger]
                    is_chain(self@.blocks, chain) ==> !(chain.first() == root && chain.last()
                        == leaf),
            },
    {
        if root == leaf {
            let mut chain: Vec<BlockId> = Vec::new();
            chain.push(root);
            return Some(chain);
        }
        let paths = all_simple_paths(&self.block_id_graph, root, leaf);
        proof {
            assert forall|i: int| 0 <= i < paths.len() implies is_chain(
                self@.blocks,
                (#[trigger] paths[i])@,
            ) by {
                lemma_simple_path_is_chain(self@.blocks, root, leaf, paths[i]@);
            }
            if paths.len() >= 2 {
                lemma_path_determined_by_end(self@.blocks, paths[0]@, paths[1]@);
            }
        }
        match at_most_one(paths) {
            Ok(Some(chain)) => Some(chain),
            Ok(None) => {
                proof {
                    assert forall|chain: Seq<BlockId>| #[trigger]
                        is_chain(self@.blocks, chain) implies !(chain.first() == root
                        && chain.last() == leaf) by {
                        if chain.first() == root && chain.last() == leaf {
                            lemma_chain_is_simple_path(self@.blocks, chain);
                        }
                    }
                }
                None
            },
            Err(_) => None,
        }
    }

    /// The ids of the best chain whose tip is not among `avoid`, found by
    /// going through every pair of a root and a leaf.
    fn search(&self, avoid: &Vec<BlockId>) -> (winner: Vec<BlockId>)
        requires
            self.store_wf(),
        ensures
            is_best_chain(self@.blocks, avoid@.to_set(), winner@),
    {
        let roots = self.root_blocks();
        let leaves = self.leaf_blocks();
        let ghost avoided = avoid@.to_set();
        let mut winner: Vec<BlockId> = Vec::new();
        let mut r: usize = 0;
        while r < roots.len()
            invariant
                self.store_wf(),
                avoided == avoid@.to_set(),
                lists_ascending(roots@, |id: BlockId| is_root(self@.blocks, id)),
                lists_ascending(leaves@, |id: BlockId| is_leaf(self@.blocks, id)),
                r <= roots.len(),
                leads(self@.blocks, avoided, roots@, leaves@, winner@, r as int, 0),
            decreases roots.len() - r,
        {
            let root = roots[r];
            let mut l: usize = 0;
            while l < leaves.len()
                invariant
                    self.store_wf(),
                    avoided == avoid@.to_set(),
                    lists_ascending(roots@, |id: BlockId| is_root(self@.blocks, id)),
                    lists_ascending(leaves@, |id: BlockId| is_leaf(self@.blocks, id)),
                    r < roots.len(),
                    root == roots[r as int],
                    l <= leaves.len(),
                    leads(self@.blocks, avoided, roots@, leaves@, winner@, r as int, l as int),
                decreases leaves.len() - l,
            {
                let leaf = leaves[l];
                assert(roots@.contains(root));
                assert(leaves@.contains(leaf));
                let ghost before = winner@;
                let found = if is_listed(avoid, leaf) {
                    None
                } else {
                    self.chain_between(root, leaf)
                };
                let ghost met = found_chain(found);
                match found {
                    Some(candidate) => {
                        if candidate.len() > winner.len() {
                            winner = candidate;
                        }
                    },
                    None => {},
                }
                proof {
                    lemma_search_step(
                        self@.blocks,
                        avoided,
                        roots@,
                        leaves@,
                        before,
                        r as int,
                        l as int,
                        met,
                        winner@,
                    );
                }
                l += 1;
            }
            proof {
                assert forall|other: Seq<BlockId>|
                    #[trigger] is_candidate(self@.blocks, avoided, other) && met_before(
                        other,
                        roots@,
                        leaves@,
                        r as int + 1,
                        0,
                    ) implies met_before(other, roots@, leaves@, r as int, l as int) by {
                    let (a, b) = choose|a: int, b: int|
                        {
                            &&& 0 <= a < roots@.len()
                            &&& 0 <= b < leaves@.len()
                            &&& #[trigger] roots@[a] == other.first()
                            &&& #[trigger] leaves@[b] == other.last()
                            &&& (a < r as int + 1 || (a == r as int + 1 && b < 0))
                        };
                    assert(roots@[a] == other.first() && leaves@[b] == other.last());
                }
                if winner@.len() > 0 {
                    let (a, b) = choose|a: int, b: int|
                        {
                            &&& 0 <= a < roots@.len()
                            &&& 0 <= b < leaves@.len()
                            &&& #[trigger] roots@[a] == winner@.first()
                            &&& #[trigger] leaves@[b] == winner@.last()
                            &&& (a < r as int || (a == r as int && b < l as int))
                        };
                    assert(roots@[a] == winner@.first() && leaves@[b] == winner@.last());
                    assert(met_before(winner@, roots@, leaves@, r as int + 1, 0));
                }
            }
            r += 1;
        }
        proof {
            assert forall|other: Seq<BlockId>| #[trigger]
                is_candidate(self@.blocks, avoided, other) implies !outranks(other, winner@) by {
                assert(roots@.contains(other.first()));
                assert(leaves@.contains(other.last()));
                let a = choose|a: int| 0 <= a < roots@.len() && roots@[a] == other.first();
                let b = choose|b: int| 0 <= b < leaves@.len() && leaves@[b] == other.last();
                assert(roots@[a] == other.first() && leaves@[b] == other.last());
                assert(met_before(other, roots@, leaves@, r as int, 0));
            }
        }
        winner
    }

    /// The blocks that a path names.
    fn blocks_along(&self, path: &Vec<BlockId>) -> (chain: Vec<Block>)
        requires
            self.store_wf(),
            path.len() > 0 ==> is_path(self@.blocks, path@),
        ensures
            chain_ids(chain_views(chain@)) == path@,
            forall|i: int|
                0 <= i < chain.len() ==> self@.blocks[(#[trigger] chain[i])@.id] == chain[i]@,
    {
        let mut chain: Vec<Block> = Vec::new();
        let mut at: usize = 0;
        while at < path.len()
            invariant
                self.store_wf(),
                path.len() > 0 ==> is_path(self@.blocks, path@),
                at <= path.len(),
                chain.len() == at,
                forall|i: int|
                    0 <= i < at ==> (#[trigger] chain[i])@ == self@.blocks[path[i]]
                        && chain[i]@.id == path[i],
            decreases path.len() - at,
        {
            let id = path[at];
            proof {
                if at > 0 {
                    assert(is_child_of(self@.blocks, path@[at - 1], path@[at as int]));
                }
                assert(self@.blocks.contains_key(id));
            }
            let block = self.block_ids_to_blocks.get(&id).unwrap();
            chain.push(block.clone());
            at += 1;
        }
        proof {
            assert(chain_ids(chain_views(chain@)) =~= path@);
        }
        chain
    }

    /// The chain that the fork-choice rule picks among the blocks of the
    /// graph.
    fn calculate_winning_chain(&self) -> (chain: Vec<Block>)
        requires
            self.store_wf(),
        ensures
            is_winning_chain(self@.blocks, chain_ids(chain_views(chain@))),
            forall|i: int|
                0 <= i < chain.len() ==> self@.blocks[(#[trigger] chain[i])@.id] == chain[i]@,
    {
        let nothing: Vec<BlockId> = Vec::new();
        let winner = self.search(&nothing);
        proof {
            assert(nothing@.to_set() =~= Set::<BlockId>::empty());
            assert forall|other: Seq<BlockId>| #[trigger]
                is_chain(self@.blocks, other) implies !outranks(other, winner@) by {
                assert(is_candidate(self@.blocks, nothing@.to_set(), other));
            }
        }
        self.blocks_along(&winner)
    }

    /// The best chain that does not end in one of the blocks named by
    /// `avoid`: what the fork-choice rule picks when the chains with those
    /// tips are left out. The result is empty where no chain is left.
    pub fn best_chain_avoiding(&self, avoid: &Vec<BlockId>) -> (chain: Vec<Block>)
        requires
            self.wf(),
        ensures
            is_best_chain(self@.blocks, avoid@.to_set(), chain_ids(chain_views(chain@))),
            forall|i: int|
                0 <= i < chain.len() ==> self@.blocks[(#[trigger] chain[i])@.id] == chain[i]@,
    {
        let winner = self.search(avoid);
        self.blocks_along(&winner)
    }
}

/// Whether `id` is among `ids`.
fn is_listed(ids: &Vec<BlockId>, id: BlockId) -> (found: bool)
    ensures
        found == ids@.to_set().contains(id),
{
    let mut at: usize = 0;
    while at < ids.len()
        invariant
            at <= ids.len(),
            forall|i: int| 0 <= i < at ==> ids[i] != id,
        decreases ids.len() - at,
    {
        if ids[at] == id {
            assert(ids@.contains(id));
            return true;
        }
        at += 1;
    }
    assert(!ids@.contains(id));
    false
}

impl Default for BlockGraph {
    /// A graph without blocks.
    fn default() -> (graph: Self)
        ensures
            graph.wf(),
            graph.is_settled(),
            graph@.blocks == Map::<BlockId, BlockView>::empty(),
            graph@.winning_chain == Seq::<BlockView>::empty(),
    {
        BlockGraph::new()
    }
}

impl BlockGraph {
    /// A graph without blocks.
    pub fn new() -> (graph: BlockGraph)
        ensures
            graph.wf(),
            graph.is_settled(),
            graph@.blocks == Map::<BlockId, BlockView>::empty(),
            graph@.winning_chain == Seq::<BlockView>::empty(),
    {
        let graph = BlockGraph {
            block_ids_to_blocks: HashMap::new(),
            block_id_graph: new_graph(),
            winning_chain: Vec::new(),
        };
        proof {
            assert(graph@.blocks =~= Map::<BlockId, BlockView>::empty());
            assert(graph@.winning_chain =~= Seq::<BlockView>::empty());
            assert(parent_edges(graph@.blocks) =~= Set::<(BlockId, BlockId)>::empty());
            assert forall|other: Seq<BlockId>| !is_chain(graph@.blocks, other) by {
                if is_chain(graph@.blocks, other) {
                    assert(graph@.blocks.contains_key(other.first()));
                }
            }
        }
        graph
    }

    /// The block with the given id, if the graph holds one.
    pub fn block(&self, id: BlockId) -> (found: Option<&Block>)
        ensures
            match found {
                Some(block) => self@.blocks.contains_key(id) && block@ == self@.blocks[id],
                None => !self@.blocks.contains_key(id),
            },
    {
        self.block_ids_to_blocks.get(&id)
    }

    /// Takes `block` into the graph.
    ///
    /// A block that is there already is not added again. A block whose id is
    /// taken by a different block is refused, and the graph stays as it was.
    /// A block that names the tip of the cached winning chain as its parent
    /// is appended to that chain. For any other block the winning chain is
    /// worked out afresh.
    pub fn add_block(&mut self, block: Block) -> (outcome: Result<AddBlockOk, AddBlockError>)
        requires
            old(self).wf(),
        ensures
            final(self).wf(),
            outcome == add_block_verdict(old(self)@, block@),
            is_add_block(old(self)@, block@, final(self)@),
            outcome is Ok && outcome != Ok::<AddBlockOk, AddBlockError>(AddBlockOk::Noop)
                && old(self).is_settled() && is_childless(old(self)@.blocks, block@.id)
                ==> final(self).is_settled(),
            outcome == Ok::<AddBlockOk, AddBlockError>(AddBlockOk::MustRebuildCache)
                ==> final(self).is_settled(),
    {
        match self.block_ids_to_blocks.get(&block.id) {
            Some(already) => {
                if already.same_as(&block) {
                    return Ok(AddBlockOk::Noop);
                } else {
                    return Err(AddBlockError::WouldClobber);
                }
            },
            None => {},
        }
        let id = block.id;
        let ghost before = self@;
        self.block_ids_to_blocks.insert(id, block.clone());
        proof {
            assert(self@.blocks =~= before.blocks.insert(id, block@));
        }
        let extends = match block.parent {
            Some(parent) => {
                add_edge(&mut self.block_id_graph, parent, id);
                proof {
                    assert(parent_edges(self@.blocks) =~= parent_edges(before.blocks).insert(
                        (parent, id),
                    )) by {
                        assert forall|edge: (BlockId, BlockId)|
                            parent_edges(self@.blocks).contains(edge) <==> parent_edges(
                                before.blocks,
                            ).insert((parent, id)).contains(edge) by {
                            assert(is_child_of(self@.blocks, edge.0, edge.1) <==> edge == (
                                parent,
                                id,
                            ) || is_child_of(before.blocks, edge.0, edge.1));
                        }
                    }
                }
                let length = self.winning_chain.len();
                length > 0 && self.winning_chain[length - 1].id == parent
            },
            None => {
                add_node(&mut self.block_id_graph, id);
                proof {
                    assert(parent_edges(self@.blocks) =~= parent_edges(before.blocks)) by {
                        assert forall|edge: (BlockId, BlockId)|
                            parent_edges(self@.blocks).contains(edge) <==> parent_edges(
                                before.blocks,
                            ).contains(edge) by {
                            assert(is_child_of(self@.blocks, edge.0, edge.1) <==> is_child_of(
                                before.blocks,
                                edge.0,
                                edge.1,
                            ));
                        }
                    }
                }
                false
            },
        };
        assert(self.store_wf());
        assert(extends == extends_tip(before.winning_chain, block@)) by {
            if before.winning_chain.len() > 0 {
                assert(before.winning_chain.last() == self.winning_chain@.last()@);
            }
        }
        if extends {
            // fast path - no need to work out the winning chain again
            self.winning_chain.push(block);
            proof {
                assert(self@.winning_chain =~= before.winning_chain.push(block@));
                lemma_add_block_keeps_chain(before, block@, self@);
                if settled(before) && is_childless(before.blocks, id) {
                    lemma_add_block_keeps_settled(before, block@, self@);
                }
            }
            Ok(AddBlockOk::CanAddNewEventsToLedger)
        } else {
            self.winning_chain = self.calculate_winning_chain();
            Ok(AddBlockOk::MustRebuildCache)
        }
    }

    /// The cached winning chain, from its root to its tip.
    pub fn winning_chain(&self) -> (chain: Vec<Block>)
        ensures
            chain_views(chain@) == self@.winning_chain,
    {
        let mut chain: Vec<Block> = Vec::new();
        let mut at: usize = 0;
        while at < self.winning_chain.len()
            invariant
                at <= self.winning_chain.len(),
                chain.len() == at,
                forall|i: int| 0 <= i < at ==> chain[i]@ == self.winning_chain[i]@,
            decreases self.winning_chain.len() - at,
        {
            chain.push(self.winning_chain[at].clone());
            at += 1;
        }
        assert(chain_views(chain@) =~= self@.winning_chain);
        chain
    }
}

} // verus!
