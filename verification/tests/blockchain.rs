use blockchain_pow_julia::{AddBlockError, AddBlockOk, Block, BlockGraph, LedgerEvent};

type TestBlockGraph = BlockGraph;

fn block(parent: impl Into<Option<char>>, id: char) -> Block {
    Block::new(parent.into().map(|it| it as u64), id as u64, vec![])
}

fn add_block(graph: &mut TestBlockGraph, parent: impl Into<Option<char>>, id: char) {
    graph.add_block(block(parent, id)).unwrap();
}

fn winning_chain(graph: &TestBlockGraph) -> Vec<char> {
    graph
        .winning_chain()
        .into_iter()
        .map(|it| char::from_u32(it.id() as u32).unwrap())
        .collect::<Vec<_>>()
}

fn assert_winning_chain(graph: &TestBlockGraph, chain: impl IntoIterator<Item = char>) {
    let expected = chain.into_iter().collect::<Vec<_>>();
    let actual = winning_chain(graph);
    assert_eq!(expected, actual)
}

#[test]
fn single_block_is_winning_chain() {
    let graph = &mut TestBlockGraph::default();
    add_block(graph, None, 'a');
    assert_winning_chain(graph, ['a'])
}

#[test]
fn smallest_block_is_winning_chain() {
    let graph = &mut TestBlockGraph::default();
    add_block(graph, None, 'a');
    add_block(graph, None, 'b');
    assert_winning_chain(graph, ['a']);

    let graph = &mut TestBlockGraph::default();
    add_block(graph, None, 'b');
    add_block(graph, None, 'a');
    assert_winning_chain(graph, ['a']);
}

#[test]
fn simple_longest_chain_wins() {
    let graph = &mut TestBlockGraph::default();
    add_block(graph, None, 'a');
    add_block(graph, 'a', 'b');
    assert_winning_chain(graph, ['a', 'b']);

    add_block(graph, 'a', 'c');
    assert_winning_chain(graph, ['a', 'b']);

    add_block(graph, 'c', 'd');
    assert_winning_chain(graph, ['a', 'c', 'd']);
}

#[test]
fn out_of_order_chain_overtakes() {
    let graph = &mut TestBlockGraph::default();
    add_block(graph, None, 'a');
    add_block(graph, 'a', 'b');
    assert_winning_chain(graph, ['a', 'b']);

    add_block(graph, 'c', 'd');
    assert_winning_chain(graph, ['a', 'b']);

    add_block(graph, 'a', 'c');
    assert_winning_chain(graph, ['a', 'c', 'd']);
}

#[test]
fn empty_graph_has_no_winning_chain() {
    let graph = TestBlockGraph::new();
    assert!(graph.winning_chain().is_empty());
    assert!(graph.block('a' as u64).is_none());
}

#[test]
fn add_block_reports_what_it_did() {
    let graph = &mut TestBlockGraph::default();
    assert_eq!(graph.add_block(block(None, 'a')), Ok(AddBlockOk::MustRebuildCache));
    assert_eq!(graph.add_block(block('a', 'b')), Ok(AddBlockOk::CanAddNewEventsToLedger));
    assert_eq!(graph.add_block(block('a', 'c')), Ok(AddBlockOk::MustRebuildCache));
    assert_eq!(graph.add_block(block('a', 'c')), Ok(AddBlockOk::Noop));
    assert_eq!(graph.add_block(block('b', 'c')), Err(AddBlockError::WouldClobber));
    assert_eq!(graph.add_block(block('x', 'y')), Ok(AddBlockOk::MustRebuildCache));
    assert_winning_chain(graph, ['a', 'b']);
}

#[test]
fn adding_a_block_twice_changes_nothing() {
    let graph = &mut TestBlockGraph::default();
    add_block(graph, None, 'a');
    add_block(graph, 'a', 'b');
    add_block(graph, 'a', 'c');
    let before = winning_chain(graph);
    for (parent, id) in [(None, 'a'), (Some('a'), 'b'), (Some('a'), 'c')] {
        assert_eq!(graph.add_block(block(parent, id)), Ok(AddBlockOk::Noop));
        assert_eq!(winning_chain(graph), before);
    }
    assert!(graph.block('a' as u64).unwrap().same_as(&block(None, 'a')));
}

#[test]
fn conflicting_block_is_rejected_and_first_stays() {
    let graph = &mut TestBlockGraph::default();
    add_block(graph, None, 'a');
    add_block(graph, 'a', 'b');
    let with_events = Block::new(
        Some('a' as u64),
        'b' as u64,
        vec![LedgerEvent::Mint { beneficiary: 1, amount: 5 }],
    );
    assert_eq!(graph.add_block(with_events), Err(AddBlockError::WouldClobber));
    assert_eq!(graph.add_block(block(None, 'b')), Err(AddBlockError::WouldClobber));
    let kept = graph.block('b' as u64).unwrap();
    assert_eq!(kept.parent(), Some('a' as u64));
    assert!(kept.events().is_empty());
    assert_winning_chain(graph, ['a', 'b']);
}

#[test]
fn equal_length_chains_are_decided_by_root_then_leaf() {
    let graph = &mut TestBlockGraph::default();
    add_block(graph, None, 'm');
    add_block(graph, 'm', 'z');
    add_block(graph, None, 'c');
    add_block(graph, 'c', 'y');
    assert_winning_chain(graph, ['c', 'y']);
    add_block(graph, 'c', 'x');
    assert_winning_chain(graph, ['c', 'x']);
    add_block(graph, None, 'b');
    assert_winning_chain(graph, ['c', 'x']);
}

#[test]
fn insertion_order_does_not_matter_when_parents_come_first_or_last() {
    let orders: [[(Option<char>, char); 5]; 3] = [
        [(None, 'a'), (Some('a'), 'b'), (Some('a'), 'c'), (Some('c'), 'd'), (Some('b'), 'e')],
        [(Some('c'), 'd'), (Some('b'), 'e'), (Some('a'), 'c'), (Some('a'), 'b'), (None, 'a')],
        [(Some('b'), 'e'), (None, 'a'), (Some('c'), 'd'), (Some('a'), 'b'), (Some('a'), 'c')],
    ];
    for order in orders {
        let graph = &mut TestBlockGraph::default();
        for (parent, id) in order {
            add_block(graph, parent, id);
        }
        assert_winning_chain(graph, ['a', 'c', 'd']);
    }
}

#[test]
fn orphans_and_cycles_never_win() {
    let graph = &mut TestBlockGraph::default();
    add_block(graph, 'q', 'p');
    add_block(graph, 'p', 'q');
    add_block(graph, 's', 's');
    add_block(graph, 'u', 'v');
    assert!(graph.winning_chain().is_empty());
    add_block(graph, None, 'w');
    assert_winning_chain(graph, ['w']);
}

#[test]
fn best_chain_avoiding_skips_the_named_tips() {
    let graph = &mut TestBlockGraph::default();
    add_block(graph, None, 'a');
    add_block(graph, 'a', 'b');
    add_block(graph, 'b', 'c');
    add_block(graph, 'a', 'd');
    add_block(graph, None, 'e');
    let ids = |chain: Vec<Block>| chain.into_iter().map(|it| it.id()).collect::<Vec<_>>();
    assert_eq!(ids(graph.best_chain_avoiding(&vec![])), vec![97, 98, 99]);
    assert_eq!(ids(graph.best_chain_avoiding(&vec!['c' as u64])), vec![97, 100]);
    assert_eq!(ids(graph.best_chain_avoiding(&vec!['c' as u64, 'd' as u64])), vec![101]);
    assert_eq!(
        ids(graph.best_chain_avoiding(&vec!['c' as u64, 'd' as u64, 'e' as u64])),
        Vec::<u64>::new()
    );
    assert_eq!(ids(graph.best_chain_avoiding(&vec!['b' as u64])), vec![97, 98, 99]);
}

#[test]
fn late_parent_at_the_tip_is_appended_without_its_children() {
    let graph = &mut TestBlockGraph::default();
    add_block(graph, None, 'a');
    add_block(graph, 'b', 'c');
    assert_winning_chain(graph, ['a']);
    assert_eq!(graph.add_block(block('a', 'b')), Ok(AddBlockOk::CanAddNewEventsToLedger));
    assert_winning_chain(graph, ['a', 'b']);
    // the next block that does not extend the tip has the chain worked out afresh
    assert_eq!(graph.add_block(block(None, 'z')), Ok(AddBlockOk::MustRebuildCache));
    assert_winning_chain(graph, ['a', 'b', 'c']);
}
