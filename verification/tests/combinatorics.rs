use puzlib::{
    ChooseIterator, Combinations, CombinationsIterator, Permutations, PermutationsIterator,
};
use std::collections::HashSet;

fn all_permutations(mut it: PermutationsIterator<i32>) -> Vec<Vec<i32>> {
    let mut out = Vec::new();
    while let Some(item) = it.next() {
        out.push(item);
    }
    out
}

fn all_combinations(mut it: CombinationsIterator<i32>) -> Vec<Vec<i32>> {
    let mut out = Vec::new();
    while let Some(item) = it.next() {
        out.push(item);
    }
    out
}

fn all_choices(mut it: ChooseIterator<i32>) -> Vec<Vec<i32>> {
    let mut out = Vec::new();
    while let Some(item) = it.next() {
        out.push(item);
    }
    out
}

#[test]
fn test_permutations() {
    let mut expected = HashSet::from([
        vec![1, 2, 1, 2, 1],
        vec![2, 1, 1, 2, 1],
        vec![1, 1, 2, 2, 1],
        vec![2, 2, 1, 1, 1],
        vec![1, 2, 2, 1, 1],
        vec![2, 1, 2, 1, 1],
        vec![1, 1, 2, 1, 2],
        vec![2, 1, 1, 1, 2],
        vec![1, 2, 1, 1, 2],
        vec![1, 1, 1, 2, 2],
    ]);
    let actual = all_permutations(vec![1, 2, 1, 2, 1].permutations());
    for item in actual {
        assert!(expected.contains(&item));
        expected.remove(&item);
    }
    assert!(expected.is_empty());
}

#[test]
fn test_permutations_without_duplicates() {
    assert_eq!(
        120,
        all_permutations([1, 2, 3, 4, 5].as_slice().permutations()).len()
    );
}

#[test]
fn test_permutations_repeating() {
    assert_eq!(1, all_permutations(vec![1, 1, 1, 1].permutations()).len());
}

#[test]
fn test_permutations_one_item() {
    assert_eq!(1, all_permutations(vec![1].permutations()).len());
}

#[test]
fn test_permutations_empty() {
    let emp = Vec::<i32>::new();
    assert_eq!(0, all_permutations(emp.permutations()).len());
}

#[test]
fn test_combinations() {
    let mut expected = HashSet::from([
        vec![1],
        vec![2],
        vec![3],
        vec![1, 2],
        vec![1, 3],
        vec![2, 3],
        vec![1, 2, 3],
    ]);
    let actual = all_combinations(vec![1, 2, 3].combinations());
    for item in actual {
        assert!(expected.contains(&item));
        expected.remove(&item);
    }
    assert!(expected.is_empty());
}

#[test]
fn test_combinations_one_item() {
    assert_eq!(1, all_combinations(vec![1].combinations()).len());
}

#[test]
fn test_combinations_empty() {
    let emp = Vec::<i32>::new();
    assert_eq!(0, all_combinations(emp.combinations()).len());
}

#[test]
fn test_choose() {
    let mut expected = HashSet::from([
        vec![1, 2, 3],
        vec![1, 2, 4],
        vec![1, 2, 5],
        vec![1, 3, 4],
        vec![1, 3, 5],
        vec![1, 4, 5],
        vec![2, 3, 4],
        vec![2, 3, 5],
        vec![2, 4, 5],
        vec![3, 4, 5],
    ]);
    let actual = all_choices(vec![1, 2, 3, 4, 5].choose_k(3));
    for item in actual {
        assert!(expected.contains(&item));
        expected.remove(&item);
    }
    assert!(expected.is_empty());
}

#[test]
fn test_choose_too_many() {
    assert_eq!(0, all_choices([1, 2, 3, 4].as_slice().choose_k(6)).len())
}

#[test]
fn test_choose_all() {
    assert_eq!(1, all_choices([1, 2, 3, 4].as_slice().choose_k(4)).len())
}

#[test]
fn test_choose_one_item() {
    assert_eq!(1, all_choices(vec![1].choose_k(1)).len());
}

#[test]
fn test_choose_empty() {
    let emp = Vec::<i32>::new();
    assert_eq!(0, all_choices(emp.choose_k(1)).len());
}

#[test]
fn permutations_come_in_order_of_exchanges() {
    assert_eq!(
        vec![
            vec![1, 2, 3],
            vec![2, 1, 3],
            vec![3, 1, 2],
            vec![1, 3, 2],
            vec![2, 3, 1],
            vec![3, 2, 1],
        ],
        all_permutations(vec![1, 2, 3].permutations())
    );
    assert_eq!(
        vec![vec![7, 7, 8], vec![8, 7, 7], vec![7, 8, 7]],
        all_permutations(vec![7, 7, 8].permutations())
    );
}

#[test]
fn combinations_come_from_the_whole_list_down() {
    assert_eq!(
        vec![
            vec![1, 2, 3],
            vec![2, 3],
            vec![1, 3],
            vec![3],
            vec![1, 2],
            vec![2],
            vec![1],
        ],
        all_combinations(vec![1, 2, 3].combinations())
    );
}

#[test]
fn choices_come_in_order_of_positions() {
    assert_eq!(
        vec![
            vec![5, 6],
            vec![5, 7],
            vec![5, 8],
            vec![6, 7],
            vec![6, 8],
            vec![7, 8],
        ],
        all_choices(vec![5, 6, 7, 8].choose_k(2))
    );
    // nothing chosen is one choice, and the only one
    assert_eq!(
        vec![Vec::<i32>::new()],
        all_choices(vec![5, 6, 7].choose_k(0))
    );
}

fn words(list: &[&str]) -> Vec<String> {
    list.iter().map(|word| word.to_string()).collect()
}

#[test]
fn lists_of_strings_are_enumerated_too() {
    let given = words(&["ab", "c", "ab"]);
    let mut arranged = given.permutations();
    let mut seen = Vec::new();
    while let Some(item) = arranged.next() {
        seen.push(item);
    }
    assert_eq!(
        vec![
            words(&["ab", "c", "ab"]),
            words(&["c", "ab", "ab"]),
            words(&["ab", "ab", "c"]),
        ],
        seen
    );

    let pair = words(&["x", "yz"]);
    let mut parts = pair.combinations();
    assert_eq!(Some(words(&["x", "yz"])), parts.next());
    assert_eq!(Some(words(&["yz"])), parts.next());
    assert_eq!(Some(words(&["x"])), parts.next());
    assert_eq!(None, parts.next());

    let three = words(&["p", "q", "r"]);
    let mut picked = three.as_slice().choose_k(2);
    assert_eq!(Some(words(&["p", "q"])), picked.next());
    assert_eq!(Some(words(&["p", "r"])), picked.next());
    assert_eq!(Some(words(&["q", "r"])), picked.next());
    assert_eq!(None, picked.next());
}

fn arrangements_by_insertion(list: &[i32]) -> HashSet<Vec<i32>> {
    let mut all: HashSet<Vec<i32>> = HashSet::new();
    all.insert(Vec::new());
    for item in list {
        let mut longer = HashSet::new();
        for shorter in &all {
            for at in 0..=shorter.len() {
                let mut made = shorter.clone();
                made.insert(at, *item);
                longer.insert(made);
            }
        }
        all = longer;
    }
    all
}

#[test]
fn every_arrangement_comes_up_once() {
    let lists: Vec<Vec<i32>> = vec![
        vec![7],
        vec![1, 2],
        vec![3, 3],
        vec![1, 2, 3, 4],
        vec![1, 2, 3, 4, 5, 6],
        vec![1, 2, 3, 4, 5, 6, 7],
        vec![1, 1, 2, 2, 3, 3],
        vec![5, 1, 5, 1, 5, 9, 9],
    ];
    for list in lists {
        let expected = arrangements_by_insertion(&list);
        let found = all_permutations(list.permutations());
        assert_eq!(list, found[0]);
        assert_eq!(expected.len(), found.len());
        let distinct: HashSet<Vec<i32>> = found.into_iter().collect();
        assert_eq!(expected, distinct);
    }
}
