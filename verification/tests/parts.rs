use revset::{make_pending, NodeFrontier, Query, StreamError, UniqueHeap, MAX_GEN};

#[test]
fn heap_pops_in_descending_order() {
    let mut heap = UniqueHeap::new();
    heap.push(3);
    heap.push(7);
    heap.push(3);
    heap.push(1);
    assert_eq!(heap.peek(), Some(7));
    assert_eq!(heap.pop(), Some(7));
    assert_eq!(heap.pop(), Some(3));
    assert_eq!(heap.pop(), Some(1));
    assert_eq!(heap.pop(), None);
    assert_eq!(heap.peek(), None);
}

#[test]
fn frontier_groups_nodes_by_generation() {
    let mut frontier =
        NodeFrontier::from_iter(vec![((0, 1), 4), ((0, 2), 9), ((0, 3), 4), ((0, 1), 4)]);
    assert!(!frontier.is_empty());
    assert_eq!(frontier.max_gen(), Some(9));
    assert_eq!(frontier.get(4).unwrap().len(), 2);
    assert!(frontier.get(9).unwrap().contains(&(0, 2)));
    assert!(frontier.get(5).is_none());

    let (generation, nodes) = frontier.remove_max_gen().unwrap();
    assert_eq!(generation, 9);
    assert_eq!(nodes.into_iter().collect::<Vec<_>>(), vec![(0, 2)]);
    assert_eq!(frontier.max_gen(), Some(4));
    frontier.insert((7, 0), MAX_GEN);
    assert_eq!(frontier.max_gen(), Some(u64::MAX));
    assert_eq!(frontier.remove_max_gen().unwrap().0, MAX_GEN);

    let (generation, nodes) = frontier.remove_max_gen().unwrap();
    assert_eq!(generation, 4);
    assert_eq!(nodes.into_iter().collect::<Vec<_>>(), vec![(0, 1), (0, 3)]);
    assert!(frontier.is_empty());
    assert_eq!(frontier.max_gen(), None);
    assert!(frontier.remove_max_gen().is_none());
    assert!(NodeFrontier::new().is_empty());
}

#[test]
fn pending_gives_parents_in_order() {
    let mut pending = make_pending((0, 5));
    assert_eq!(pending.query(), Some(Query::Parents((0, 5))));
    assert_eq!(
        pending.parents_fetched::<()>(Ok(vec![(0, 4), (0, 3)])),
        Ok(())
    );
    assert_eq!(pending.query(), Some(Query::Generation((0, 4))));
    assert_eq!(pending.generation_fetched::<()>(Ok(2)), Ok(((0, 4), 2)));
    assert_eq!(pending.query(), Some(Query::Generation((0, 3))));
    assert_eq!(pending.generation_fetched::<()>(Ok(1)), Ok(((0, 3), 1)));
    assert_eq!(pending.query(), None);
}

#[test]
fn pending_of_a_root_has_no_parents() {
    let mut pending = make_pending((0, 0));
    assert_eq!(pending.parents_fetched::<()>(Ok(vec![])), Ok(()));
    assert_eq!(pending.query(), None);
}

#[test]
fn pending_fails_with_the_fetch() {
    let mut pending = make_pending((0, 5));
    assert_eq!(
        pending.parents_fetched(Err("gone")),
        Err(StreamError::ParentsFetchFailed("gone"))
    );
    assert_eq!(pending.query(), None);

    let mut pending = make_pending((0, 5));
    assert_eq!(
        pending.parents_fetched::<()>(Ok(vec![(0, 4), (0, 3)])),
        Ok(())
    );
    assert_eq!(
        pending.generation_fetched(Err("gone")),
        Err(StreamError::GenerationFetchFailed("gone"))
    );
    // The next parent is still to be had.
    assert_eq!(pending.query(), Some(Query::Generation((0, 3))));
    assert_eq!(pending.generation_fetched::<()>(Ok(1)), Ok(((0, 3), 1)));
    assert_eq!(pending.query(), None);
}
