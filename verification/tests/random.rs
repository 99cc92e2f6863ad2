use puzlib::{
    a_star, bfs, dfs, dijkstra, Combinations, DisjointSet, Graph, Permutations, Weighted,
};

/// A small generator of numbers that look random and are the same on every run.
struct Numbers(u64);

impl Numbers {
    fn next(&mut self, below: usize) -> usize {
        self.0 = self
            .0
            .wrapping_mul(6364136223846793005)
            .wrapping_add(1442695040888963407);
        ((self.0 >> 33) as usize) % below
    }
}

struct Net {
    edges: Vec<Vec<(usize, usize)>>,
    goals: Vec<bool>,
}

impl Graph for Net {
    type Node = usize;

    fn height(&self) -> usize {
        1
    }

    fn width(&self) -> usize {
        self.edges.len()
    }

    fn moves(&self, node: &usize) -> Vec<usize> {
        self.edges[*node].iter().map(|e| e.0).collect()
    }

    fn is_done(&self, node: &usize) -> bool {
        self.goals[*node]
    }
}

impl Weighted for Net {
    fn weight(&self, cur: &usize, next: &usize) -> usize {
        // the first listed step between two nodes counts, as in `moves`
        self.edges[*cur].iter().find(|e| e.0 == *next).unwrap().1
    }
}

fn random_net(numbers: &mut Numbers) -> Net {
    let nodes = 2 + numbers.next(7);
    let mut edges = vec![Vec::new(); nodes];
    for from in 0..nodes {
        for _ in 0..numbers.next(4) {
            let to = numbers.next(nodes);
            if edges[from].iter().all(|e: &(usize, usize)| e.0 != to) {
                edges[from].push((to, numbers.next(5)));
            }
        }
    }
    let mut goals = vec![false; nodes];
    for _ in 0..numbers.next(3) {
        goals[numbers.next(nodes)] = true;
    }
    Net { edges, goals }
}

/// Least cost and fewest steps from `start` to every node, by repeated relaxation.
fn least(net: &Net, start: usize) -> (Vec<Option<usize>>, Vec<Option<usize>>) {
    let n = net.edges.len();
    let mut cost = vec![None; n];
    let mut hops = vec![None; n];
    cost[start] = Some(0);
    hops[start] = Some(0);
    for _ in 0..n {
        for from in 0..n {
            for &(to, w) in &net.edges[from] {
                if let Some(c) = cost[from] {
                    if cost[to].map_or(true, |old| c + w < old) {
                        cost[to] = Some(c + w);
                    }
                }
                if let Some(h) = hops[from] {
                    if hops[to].map_or(true, |old| h + 1 < old) {
                        hops[to] = Some(h + 1);
                    }
                }
            }
        }
    }
    (cost, hops)
}

fn is_walk(net: &Net, start: usize, path: &[usize]) -> bool {
    path.first() == Some(&start)
        && net.goals[*path.last().unwrap()]
        && path.windows(2).all(|s| net.edges[s[0]].iter().any(|e| e.0 == s[1]))
}

fn cost_of(net: &Net, path: &[usize]) -> usize {
    path.windows(2).map(|s| net.weight(&s[0], &s[1])).sum()
}

#[test]
fn searches_agree_with_repeated_relaxation() {
    let mut numbers = Numbers(2024);
    for _ in 0..400 {
        let net = random_net(&mut numbers);
        let start = numbers.next(net.edges.len());
        let (cost, hops) = least(&net, start);
        let goals: Vec<usize> = (0..net.edges.len()).filter(|v| net.goals[*v]).collect();
        let best_cost = goals.iter().filter_map(|g| cost[*g]).min();
        let best_hops = goals.iter().filter_map(|g| hops[*g]).min();

        let wide = bfs(&start, &net);
        assert_eq!(best_hops, wide.as_ref().map(|p| p.len() - 1));
        let deep = dfs(&start, &net);
        assert_eq!(best_hops.is_some(), deep.is_some());
        for path in [&wide, &deep].into_iter().flatten() {
            assert!(is_walk(&net, start, path));
            assert!(path[..path.len() - 1].iter().all(|v| !net.goals[*v]));
            let mut sorted = path.clone();
            sorted.sort();
            sorted.dedup();
            assert_eq!(path.len(), sorted.len());
        }

        let uniform = dijkstra(&start, &net);
        assert_eq!(best_cost, uniform.as_ref().map(|f| f.0[f.1.last().unwrap()]));
        if let Some((dist, path)) = &uniform {
            assert!(is_walk(&net, start, path));
            assert_eq!(best_cost, Some(cost_of(&net, path)));
            for (node, recorded) in dist {
                assert!(cost[*node].unwrap() <= *recorded);
                if *recorded <= best_cost.unwrap() {
                    assert_eq!(cost[*node], Some(*recorded));
                }
            }
        }

        // an estimate that never exceeds what is left: the least cost to a goal, halved
        let mut left = vec![0; net.edges.len()];
        for from in 0..net.edges.len() {
            let (from_here, _) = least(&net, from);
            left[from] = goals.iter().filter_map(|g| from_here[*g]).min().unwrap_or(0) / 2;
        }
        let guided = a_star(&start, &net, |v| left[*v]);
        assert_eq!(best_cost, guided.as_ref().map(|f| f.0[f.1.last().unwrap()]));
        if let Some((_, path)) = &guided {
            assert!(is_walk(&net, start, path));
            assert_eq!(best_cost, Some(cost_of(&net, path)));
        }
        let blind = a_star(&start, &net, |_| 0);
        assert_eq!(
            uniform.as_ref().map(|f| cost_of(&net, &f.1)),
            blind.as_ref().map(|f| cost_of(&net, &f.1))
        );
        // running again changes nothing
        assert_eq!(uniform, dijkstra(&start, &net));
        assert_eq!(guided, a_star(&start, &net, |v| left[*v]));
        assert_eq!(wide, bfs(&start, &net));
        assert_eq!(deep, dfs(&start, &net));
    }
}

#[test]
fn disjoint_sets_agree_with_labels() {
    let mut numbers = Numbers(7);
    for by_size in [true, false] {
        for _ in 0..100 {
            let n = 1 + numbers.next(12);
            let mut sets = if by_size {
                DisjointSet::init_size(n)
            } else {
                DisjointSet::init_rank(n)
            };
            let mut label: Vec<usize> = (0..n).collect();
            for _ in 0..2 * n {
                let (a, b) = (numbers.next(n), numbers.next(n));
                let apart = label[a] != label[b];
                assert_eq!(apart, sets.union(a, b));
                let (from, to) = (label[b], label[a]);
                for l in label.iter_mut() {
                    if *l == from {
                        *l = to;
                    }
                }
                for x in 0..n {
                    for y in 0..n {
                        assert_eq!(label[x] == label[y], sets.find_root(x) == sets.find_root(y));
                    }
                }
            }
        }
    }
}

fn factorial(n: usize) -> usize {
    (1..=n).product()
}

#[test]
fn enumerators_hand_out_every_arrangement_and_selection_once() {
    let mut numbers = Numbers(99);
    for _ in 0..60 {
        let len = numbers.next(6);
        let items: Vec<usize> = (0..len).map(|_| numbers.next(3)).collect();

        let mut arrangements = Vec::new();
        let mut it = items.permutations();
        while let Some(p) = it.next() {
            let mut sorted = p.clone();
            sorted.sort();
            let mut expected = items.clone();
            expected.sort();
            assert_eq!(expected, sorted);
            assert!(!arrangements.contains(&p));
            arrangements.push(p);
        }
        let mut distinct = factorial(len);
        for value in 0..3 {
            distinct /= factorial(items.iter().filter(|v| **v == value).count());
        }
        assert_eq!(if len == 0 { 0 } else { distinct }, arrangements.len());

        let tokens: Vec<usize> = (0..len).collect();
        let mut count = 0;
        let mut it = tokens.combinations();
        while let Some(c) = it.next() {
            assert!(!c.is_empty());
            assert!(c.windows(2).all(|w| w[0] < w[1]));
            count += 1;
        }
        assert_eq!((1usize << len) - 1, count);

        for picks in 0..=len + 1 {
            let mut count = 0;
            let mut last: Option<Vec<usize>> = None;
            let mut it = tokens.choose_k(picks);
            while let Some(c) = it.next() {
                assert_eq!(picks, c.len());
                assert!(c.windows(2).all(|w| w[0] < w[1]));
                if let Some(before) = &last {
                    assert!(before < &c);
                }
                last = Some(c);
                count += 1;
            }
            let expected = if len == 0 || picks > len {
                0
            } else {
                factorial(len) / (factorial(picks) * factorial(len - picks))
            };
            assert_eq!(expected, count);
        }
    }
}
