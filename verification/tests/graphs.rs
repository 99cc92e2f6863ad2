use puzlib::DisjointSet;

#[test]
fn every_element_starts_alone() {
    let mut sets = DisjointSet::init_size(4);
    for i in 0..4 {
        assert_eq!(i, sets.find_root(i));
    }
    let mut sets = DisjointSet::init_rank(4);
    for i in 0..4 {
        assert_eq!(i, sets.find_root(i));
    }
}

#[test]
fn union_joins_two_sets_once() {
    let mut sets = DisjointSet::init_size(5);
    assert!(sets.union(0, 1));
    assert!(!sets.union(1, 0));
    assert!(!sets.union(0, 0));
    assert!(sets.union(2, 3));
    assert!(sets.union(1, 3));
    assert!(!sets.union(0, 2));
    assert_eq!(sets.find_root(0), sets.find_root(3));
    assert_eq!(4, sets.find_root(4));
    assert_ne!(sets.find_root(4), sets.find_root(0));
}

#[test]
fn union_by_size_keeps_the_larger_root() {
    let mut sets = DisjointSet::init_size(5);
    // equal sizes: the left root stays
    assert!(sets.union(0, 1));
    assert_eq!(0, sets.find_root(1));
    // the set of 0 is larger than the set of 2: its root stays although it is on the right
    assert!(sets.union(2, 0));
    assert_eq!(0, sets.find_root(2));
    assert!(sets.union(3, 4));
    assert_eq!(3, sets.find_root(4));
    assert!(sets.union(4, 1));
    assert_eq!(0, sets.find_root(3));
    assert_eq!(0, sets.find_root(4));
}

#[test]
fn union_by_rank_keeps_the_left_root() {
    let mut sets = DisjointSet::init_rank(4);
    assert!(sets.union(0, 1));
    assert_eq!(0, sets.find_root(1));
    // ranks never rise, so the left root stays whatever the sizes
    assert!(sets.union(2, 0));
    assert_eq!(2, sets.find_root(0));
    assert_eq!(2, sets.find_root(1));
    assert!(sets.union(3, 1));
    assert_eq!(3, sets.find_root(2));
}

#[test]
fn find_root_shortens_the_way() {
    let mut sets = DisjointSet::init_rank(6);
    for i in 0..5 {
        assert!(sets.union(i + 1, i));
    }
    for i in 0..6 {
        assert_eq!(5, sets.find_root(i));
    }
    assert!(!sets.union(0, 5));
}
