use treeindex::ARRAY_SIZE;
use treeindex::Error;
use treeindex::LeafNodeScanner;
use treeindex::Node;

#[test]
fn leaf_node() {
    // sequential
    let mut node = Node::new(0);
    for i in 0..ARRAY_SIZE {
        for j in 0..(ARRAY_SIZE + 1) {
            assert!(node.insert((j + 1) * (ARRAY_SIZE + 1) - i, 10).is_ok());
            match node.insert((j + 1) * (ARRAY_SIZE + 1) - i, 11) {
                Ok(_) => assert!(false),
                Err(result) => match result {
                    Error::Duplicated(entry) => {
                        assert_eq!(entry, ((j + 1) * (ARRAY_SIZE + 1) - i, 11))
                    }
                    Error::Full(_, _) => assert!(false),
                    Error::Retry(_) => assert!(false),
                },
            }
        }
    }
    match node.insert(0, 11) {
        Ok(_) => assert!(false),
        Err(result) => match result {
            Error::Duplicated(_) => assert!(false),
            Error::Full(entry, _) => assert_eq!(entry, (0, 11)),
            Error::Retry(_) => assert!(false),
        },
    }
    match node.insert(240, 11) {
        Ok(_) => assert!(false),
        Err(result) => match result {
            Error::Duplicated(_) => assert!(false),
            Error::Full(_, _) => assert!(false),
            Error::Retry(entry) => assert_eq!(entry, (240, 11)),
        },
    }
    // induce split
    let mut node = Node::new(0);
    for i in 0..ARRAY_SIZE {
        for j in 0..ARRAY_SIZE {
            if j == ARRAY_SIZE / 2 {
                continue;
            }
            assert!(node.insert((j + 1) * (ARRAY_SIZE + 1) - i, 10).is_ok());
            match node.insert((j + 1) * (ARRAY_SIZE + 1) - i, 11) {
                Ok(_) => assert!(false),
                Err(result) => match result {
                    Error::Duplicated(entry) => {
                        assert_eq!(entry, ((j + 1) * (ARRAY_SIZE + 1) - i, 11))
                    }
                    Error::Full(_, _) => assert!(false),
                    Error::Retry(_) => assert!(false),
                },
            }
        }
    }
    for i in 0..(ARRAY_SIZE / 2) {
        assert!(node
            .insert((ARRAY_SIZE / 2 + 1) * (ARRAY_SIZE + 1) - i, 10)
            .is_ok());
        match node.insert((ARRAY_SIZE / 2 + 1) * (ARRAY_SIZE + 1) - i, 11) {
            Ok(_) => assert!(false),
            Err(result) => match result {
                Error::Duplicated(entry) => {
                    assert_eq!(entry, ((ARRAY_SIZE / 2 + 1) * (ARRAY_SIZE + 1) - i, 11))
                }
                Error::Full(_, _) => assert!(false),
                Error::Retry(_) => assert!(false),
            },
        }
    }
    for i in 0..ARRAY_SIZE {
        assert!(node
            .insert((ARRAY_SIZE + 2) * (ARRAY_SIZE + 1) - i, 10)
            .is_ok());
        match node.insert((ARRAY_SIZE + 2) * (ARRAY_SIZE + 1) - i, 11) {
            Ok(_) => assert!(false),
            Err(result) => match result {
                Error::Duplicated(entry) => {
                    assert_eq!(entry, ((ARRAY_SIZE + 2) * (ARRAY_SIZE + 1) - i, 11))
                }
                Error::Full(_, _) => assert!(false),
                Error::Retry(_) => assert!(false),
            },
        }
    }
    match node.insert(240, 11) {
        Ok(_) => assert!(false),
        Err(result) => match result {
            Error::Duplicated(_) => assert!(false),
            Error::Full(entry, bound) => {
                assert_eq!(entry, (240, 11));
                assert_eq!(bound, None);
            }
            Error::Retry(_) => assert!(false),
        },
    }

    let mut scanner = LeafNodeScanner::new(&node);
    let mut iterated = 0;
    let mut prev = 0;
    while let Some(entry) = scanner.next(&node) {
        assert!(prev < entry.0);
        assert_eq!(entry.1, 10);
        prev = entry.0;
        iterated += 1;
        let searched = node.search(entry.0);
        assert_eq!(
            searched.map_or_else(|| 0, |scanner| scanner.get().map_or_else(|| 0, |entry| entry.1)),
            10
        )
    }
    assert_eq!(iterated, ARRAY_SIZE * (ARRAY_SIZE + 1) - ARRAY_SIZE / 2);
}

#[test]
fn distinct_keys_stay_retrievable() {
    let mut node = Node::new(0);
    let keys = [41, 7, 230, 95, 12, 180, 3, 66];
    for (i, k) in keys.iter().enumerate() {
        assert!(node.insert(*k, 1000 + i).is_ok());
    }
    for (i, k) in keys.iter().enumerate() {
        let scanner = node.search(*k).unwrap();
        assert_eq!(scanner.get(), Some((*k, 1000 + i)));
    }
    assert!(node.search(999).is_none());
}

#[test]
fn duplicate_keeps_stored_binding() {
    let mut node = Node::new(0);
    assert!(node.insert(5, 50).is_ok());
    match node.insert(5, 51) {
        Err(Error::Duplicated(entry)) => assert_eq!(entry, (5, 51)),
        _ => assert!(false),
    }
    // the stored value is the original one
    let scanner = node.search(5).unwrap();
    assert_eq!(scanner.get(), Some((5, 50)));
}

#[test]
fn overflow_bound_names_the_slot() {
    let mut node = Node::new(0);
    // fill every bucket and the unbounded slot to capacity
    for i in 0..ARRAY_SIZE {
        for j in 0..(ARRAY_SIZE + 1) {
            assert!(node.insert((j + 1) * (ARRAY_SIZE + 1) - i, 7).is_ok());
        }
    }
    // an entry with no remaining room in a bounded slot reports Full with
    // that slot's upper bound
    match node.insert(0, 7) {
        Err(Error::Full(entry, bound)) => {
            assert_eq!(entry, (0, 7));
            assert_eq!(bound, Some(ARRAY_SIZE + 1));
        }
        _ => assert!(false),
    }
    // with a split already staged, any further split attempt backs off
    match node.insert(1, 7) {
        Err(Error::Retry(entry)) => assert_eq!(entry, (1, 7)),
        _ => assert!(false),
    }
}

#[test]
fn unbounded_overflow_reports_full_without_bound() {
    let mut node = Node::new(0);
    for i in 0..ARRAY_SIZE {
        for j in 0..(ARRAY_SIZE + 1) {
            assert!(node.insert((j + 1) * (ARRAY_SIZE + 1) - i, 7).is_ok());
        }
    }
    // the unbounded slot has no upper bound to report; the split stays
    // staged and the parent must make room
    match node.insert(300, 7) {
        Err(Error::Full(entry, bound)) => {
            assert_eq!(entry, (300, 7));
            assert_eq!(bound, None);
        }
        _ => assert!(false),
    }
    // the staged entries are not reachable by search, and nothing linked
    // was lost
    assert!(node.search(300).is_none());
    for j in 0..(ARRAY_SIZE + 1) {
        let k = (j + 1) * (ARRAY_SIZE + 1);
        assert_eq!(node.search(k).unwrap().get(), Some((k, 7)));
    }
}

#[test]
fn internal_node_routes_and_searches() {
    let mut node = Node::new(1);
    for k in [10, 20, 30, 40, 5, 15, 25, 35] {
        assert!(node.insert(k, k * 2).is_ok());
    }
    match node.insert(20, 99) {
        Err(Error::Duplicated(entry)) => assert_eq!(entry, (20, 99)),
        _ => assert!(false),
    }
    for k in [10, 20, 30, 40, 5, 15, 25, 35] {
        let scanner = node.search(k).unwrap();
        assert_eq!(scanner.get(), Some((k, k * 2)));
    }
    assert!(node.search(22).is_none());
}

#[test]
fn routing_split_backs_off_and_stages() {
    // a routing node two floors up never redistributes: the claim stays and
    // the caller retries
    let mut tall = Node::new(2);
    assert!(tall.insert(100, 1).is_ok());
    match tall.split_node((100, 1), Some(0)) {
        Err(Error::Retry(entry)) => assert_eq!(entry, (100, 1)),
        _ => assert!(false),
    }
    match tall.split_node((100, 1), Some(0)) {
        Err(Error::Retry(entry)) => assert_eq!(entry, (100, 1)),
        _ => assert!(false),
    }

    // one floor up, an unbounded-slot child is redistributed into the
    // staging slots; a second attempt backs off
    let mut node = Node::new(1);
    for j in 0..ARRAY_SIZE {
        assert!(node.insert((j + 1) * 10, 0).is_ok());
    }
    for j in 0..4 {
        assert!(node.insert(1000 + j, 0).is_ok());
    }
    assert!(node.split_node((2000, 0), None).is_ok());
    match node.split_node((2000, 0), None) {
        Err(Error::Retry(entry)) => assert_eq!(entry, (2000, 0)),
        _ => assert!(false),
    }
    // no stored pair was gained or lost
    for j in 0..ARRAY_SIZE {
        assert_eq!(node.search((j + 1) * 10).unwrap().get(), Some(((j + 1) * 10, 0)));
    }
    for j in 0..4 {
        assert_eq!(node.search(1000 + j).unwrap().get(), Some((1000 + j, 0)));
    }
}

#[test]
fn routing_level_absorbs_child_overflow() {
    let mut node = Node::new(1);
    // fill the routing index so the unbounded child exists
    for j in 0..ARRAY_SIZE {
        assert!(node.insert((j + 1) * 1000, 0).is_ok());
    }
    // grow the unbounded child a full bucket index of its own
    for j in 0..ARRAY_SIZE {
        assert!(node.insert(100000 + j * 100, 1).is_ok());
    }
    // fill one of its bucket leaves to capacity
    for i in 1..ARRAY_SIZE {
        assert!(node.insert(100000 + 100 * (ARRAY_SIZE - 1) - i, 2).is_ok());
    }
    // one more entry for that bucket: the child's own index is full, the
    // child reports Full, and this level absorbs it by splitting the slot
    // and sending the caller back to the top
    match node.insert(101050, 3) {
        Err(Error::Retry(entry)) => assert_eq!(entry, (101050, 3)),
        _ => assert!(false),
    }
    // nothing stored was lost by the absorb
    for j in 0..ARRAY_SIZE {
        assert_eq!(
            node.search((j + 1) * 1000).unwrap().get(),
            Some(((j + 1) * 1000, 0))
        );
        assert_eq!(
            node.search(100000 + j * 100).unwrap().get(),
            Some((100000 + j * 100, 1))
        );
    }
    for i in 1..ARRAY_SIZE {
        let k = 100000 + 100 * (ARRAY_SIZE - 1) - i;
        assert_eq!(node.search(k).unwrap().get(), Some((k, 2)));
    }
    // replaying the insert finds the child's split still staged and backs
    // off again
    match node.insert(101050, 3) {
        Err(Error::Retry(entry)) => assert_eq!(entry, (101050, 3)),
        _ => assert!(false),
    }
}

#[test]
fn scan_is_ascending_and_searchable() {
    let mut node = Node::new(0);
    for k in [9, 3, 27, 81, 1, 243] {
        assert!(node.insert(k, k + 1).is_ok());
    }
    let mut scanner = LeafNodeScanner::new(&node);
    assert_eq!(scanner.get(), None);
    let mut prev = 0;
    let mut seen = 0;
    while let Some((k, v)) = scanner.next(&node) {
        assert!(prev < k);
        assert_eq!(v, k + 1);
        assert_eq!(node.search(k).unwrap().get(), Some((k, v)));
        prev = k;
        seen += 1;
    }
    assert_eq!(seen, 6);
    // a drained cursor stays drained
    assert_eq!(scanner.next(&node), None);
    assert_eq!(scanner.get(), None);
}

#[test]
fn scanner_on_routing_node_yields_nothing() {
    let mut node = Node::new(1);
    assert!(node.insert(10, 1).is_ok());
    let mut scanner = LeafNodeScanner::new(&node);
    assert_eq!(scanner.next(&node), None);
}
