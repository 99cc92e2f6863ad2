use puzlib::{Frontier, FrontierEntry};

#[test]
fn frontier_hands_out_cheapest_first() {
    let mut frontier = Frontier::new();
    assert!(frontier.is_empty());
    for (node, cost) in [(1, 9), (2, 3), (3, 7), (4, 1), (5, 8), (6, 2)] {
        frontier.push(node, cost);
    }
    assert_eq!(6, frontier.len());
    let mut out = Vec::new();
    while let Some(entry) = frontier.pop() {
        out.push((entry.node, entry.cost));
    }
    assert_eq!(vec![(4, 1), (6, 2), (2, 3), (3, 7), (5, 8), (1, 9)], out);
    assert_eq!(None, frontier.pop());
}

#[test]
fn frontier_breaks_ties_by_smaller_node() {
    let mut frontier = Frontier::new();
    for node in [4, 9, 1, 7] {
        frontier.push(node, 5);
    }
    frontier.push(0, 4);
    let mut out = Vec::new();
    while let Some(FrontierEntry { node, cost }) = frontier.pop() {
        out.push((node, cost));
    }
    assert_eq!(vec![(0, 4), (1, 5), (4, 5), (7, 5), (9, 5)], out);
}

#[test]
fn frontier_keeps_duplicates() {
    let mut frontier = Frontier::new();
    frontier.push(3, 2);
    frontier.push(3, 2);
    frontier.push(3, 1);
    assert_eq!(3, frontier.len());
    assert_eq!(Some(FrontierEntry { node: 3, cost: 1 }), frontier.pop());
    assert_eq!(Some(FrontierEntry { node: 3, cost: 2 }), frontier.pop());
    assert_eq!(Some(FrontierEntry { node: 3, cost: 2 }), frontier.pop());
    assert!(frontier.is_empty());
}

#[test]
fn frontier_sorts_whatever_is_pushed() {
    let mut frontier = Frontier::new();
    let mut expected = Vec::new();
    let mut seed: usize = 12345;
    for _ in 0..500 {
        seed = (seed * 1103515245 + 12345) % 2147483648;
        let cost = seed % 50;
        seed = (seed * 1103515245 + 12345) % 2147483648;
        let node = seed % 20;
        frontier.push(node, cost);
        expected.push((cost, node));
    }
    expected.sort();
    assert_eq!(500, frontier.len());
    for (cost, node) in expected {
        assert_eq!(Some(FrontierEntry { node, cost }), frontier.pop());
    }
    assert!(frontier.is_empty());
}
