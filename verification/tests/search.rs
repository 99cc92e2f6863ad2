use puzlib::{a_star, bfs, dfs, dijkstra, get_path, Dir, Graph, Vec2D, Weighted};
use std::collections::HashMap;

struct Layout {
    nodes: Vec<Vec<(usize, usize)>>,
    target: usize,
}

impl Graph for Layout {
    type Node = usize;

    fn moves(&self, cur: &usize) -> Vec<usize> {
        self.nodes[*cur].iter().map(|v| v.0).collect()
    }

    fn is_done(&self, node: &usize) -> bool {
        *node == self.target
    }

    fn height(&self) -> usize {
        3
    }

    fn width(&self) -> usize {
        4
    }
}

impl Weighted for Layout {
    fn weight(&self, cur: &usize, next: &usize) -> usize {
        self.nodes[*cur]
            .iter()
            .filter_map(|v| if v.0 == *next { Some(v.1) } else { None })
            .next()
            .unwrap()
    }
}

fn example_layout(target: usize) -> Layout {
    Layout {
        nodes: vec![
            // Node 0
            vec![(2, 10), (1, 1)],
            // Node 1
            vec![(3, 2)],
            // Node 2
            vec![(1, 1), (3, 3), (4, 1)],
            // Node 3
            vec![(0, 7), (4, 2)],
            // Node 4
            vec![],
        ],
        target,
    }
}

fn check_dijkstra_example() {
    let start = 3;
    let mut graph = example_layout(0);
    assert_eq!(
        Some((7_usize, vec![3, 0])),
        dijkstra(&start, &graph).map(|g| (g.0[&graph.target], g.1))
    );
    graph.target = 4;
    let start = 0;
    assert_eq!(
        Some((5_usize, vec![0, 1, 3, 4])),
        dijkstra(&start, &graph).map(|g| (g.0[&graph.target], g.1))
    );
}

#[test]
fn search_test_dijkstra() {
    check_dijkstra_example();
}

#[test]
fn dijkstra_test_dijkstra() {
    check_dijkstra_example();
}

/// A chamber of digits; a node is a cell, numbered row by row.
struct Chamber {
    chamber: HashMap<usize, i64>,
    start: Vec<usize>,
    end: usize,
    size: (usize, usize),
}

impl Chamber {
    fn position(&self, node: usize) -> Vec2D<i64> {
        Vec2D((node / self.size.1) as i64, (node % self.size.1) as i64)
    }

    fn node(&self, position: &Vec2D<i64>) -> Option<usize> {
        if position.0 < 0
            || position.1 < 0
            || position.0 >= self.size.0 as i64
            || position.1 >= self.size.1 as i64
        {
            None
        } else {
            Some(position.0 as usize * self.size.1 + position.1 as usize)
        }
    }

    fn heuristic(&self, n: &usize) -> usize {
        self.position(self.end).manhattan(self.position(*n)) as usize
    }

    fn parse(value: Vec<&str>) -> Chamber {
        let mut chamber = Chamber {
            chamber: HashMap::new(),
            start: Vec::new(),
            end: 0,
            size: (value.len(), value[0].len()),
        };
        for (row, line) in value.into_iter().enumerate() {
            for (col, ch) in line.chars().enumerate() {
                let node = row * chamber.size.1 + col;
                match ch {
                    'E' => {
                        chamber.end = node;
                        chamber.chamber.insert(node, 0);
                    }
                    'S' => {
                        chamber.start.push(node);
                        chamber.chamber.insert(node, 0);
                    }
                    x if x.is_ascii_digit() => {
                        chamber.chamber.insert(node, (x as u8 - b'0') as i64);
                    }
                    _ => (),
                }
            }
        }
        chamber
    }
}

impl Graph for Chamber {
    type Node = usize;

    fn height(&self) -> usize {
        self.size.0
    }

    fn width(&self) -> usize {
        self.size.1
    }

    fn moves(&self, node: &usize) -> Vec<usize> {
        Dir::<i64>::cardinals(&self.position(*node))
            .iter()
            .filter_map(|n| match n {
                Some(a) => match self.node(a) {
                    Some(id) if self.chamber.contains_key(&id) => Some(id),
                    _ => None,
                },
                None => None,
            })
            .collect()
    }

    fn is_done(&self, node: &usize) -> bool {
        *node == self.end
    }
}

impl Weighted for Chamber {
    fn weight(&self, cur: &usize, next: &usize) -> usize {
        let a = self.chamber[cur];
        let b = self.chamber[next];
        let cost = (a - b).abs().min(10 - (b - a).abs()) + 1;
        cost as usize
    }
}

fn check_a_star_example() {
    let expected = 28;
    let chamber = Chamber::parse(
        "#######
#6769##
S50505E
#97434#
#######"
            .lines()
            .collect::<Vec<_>>(),
    );
    assert_eq!((5, 7), (chamber.height(), chamber.width()));
    assert_eq!(14, chamber.start[0]);
    assert_eq!(20, chamber.end);
    let res = a_star(&chamber.start[0], &chamber, |n| chamber.heuristic(n)).unwrap();
    println!("{:?}", res.1);
    let actual = res.0[&chamber.end];
    assert_eq!(expected, actual);
}

#[test]
fn search_test_a_star() {
    check_a_star_example();
}

#[test]
fn a_star_test_a_star() {
    check_a_star_example();
}

fn walk_cost(graph: &Layout, walk: &[usize]) -> usize {
    walk.windows(2).map(|step| graph.weight(&step[0], &step[1])).sum()
}

/// All walks from `from` that repeat no node, each with its cost.
fn simple_walks(graph: &Layout, from: usize) -> Vec<(Vec<usize>, usize)> {
    let mut done = Vec::new();
    let mut open = vec![vec![from]];
    while let Some(walk) = open.pop() {
        for next in graph.moves(walk.last().unwrap()) {
            if !walk.contains(&next) {
                let mut longer = walk.clone();
                longer.push(next);
                open.push(longer);
            }
        }
        let cost = walk_cost(graph, &walk);
        done.push((walk, cost));
    }
    done
}

#[test]
fn dijkstra_costs_match_enumeration() {
    for start in 0..5 {
        for target in 0..5 {
            let graph = example_layout(target);
            let walks = simple_walks(&graph, start);
            let least = |node: usize| {
                walks.iter().filter(|w| *w.0.last().unwrap() == node).map(|w| w.1).min()
            };
            match dijkstra(&start, &graph) {
                Some((dist, path)) => {
                    assert_eq!(Some(&start), path.first());
                    assert_eq!(Some(&target), path.last());
                    assert_eq!(least(target), Some(dist[&target]));
                    assert_eq!(dist[&target], walk_cost(&graph, &path));
                    for (node, cost) in dist.iter() {
                        assert!(least(*node).unwrap() <= *cost);
                        if *cost <= dist[&target] {
                            assert_eq!(least(*node), Some(*cost));
                        }
                    }
                }
                None => assert_eq!(None, least(target)),
            }
        }
    }
}

#[test]
fn a_star_without_estimate_agrees_with_dijkstra() {
    for start in 0..5 {
        for target in 0..5 {
            let graph = example_layout(target);
            let uniform = dijkstra(&start, &graph).map(|found| found.0[&target]);
            let guided = a_star(&start, &graph, |_| 0).map(|found| found.0[&target]);
            assert_eq!(uniform, guided);
        }
    }
}

#[test]
fn a_star_with_admissible_estimate_is_optimal() {
    // remaining cost to node 4, never overestimated
    let remaining = [3, 2, 1, 2, 0];
    let graph = example_layout(4);
    let (dist, path) = a_star(&0, &graph, |n| remaining[*n]).unwrap();
    assert_eq!(5, dist[&4]);
    assert_eq!(vec![0, 1, 3, 4], path);
}

#[test]
fn bfs_finds_fewest_steps() {
    let graph = example_layout(4);
    assert_eq!(Some(vec![0, 2, 4]), bfs(&0, &graph));
    let graph = example_layout(0);
    assert_eq!(Some(vec![1, 3, 0]), bfs(&1, &graph));
    assert_eq!(Some(vec![0]), bfs(&0, &graph));
}

#[test]
fn dfs_finds_some_walk() {
    let graph = example_layout(4);
    let path = dfs(&0, &graph).unwrap();
    assert_eq!(Some(&0), path.first());
    assert_eq!(Some(&4), path.last());
    for step in path.windows(2) {
        assert!(graph.moves(&step[0]).contains(&step[1]));
    }
    // the stack hands out the neighbour pushed last: 0 -> 1 -> 3 -> 4
    assert_eq!(vec![0, 1, 3, 4], path);
    let graph = example_layout(0);
    assert_eq!(Some(vec![0]), dfs(&0, &graph));
}

#[test]
fn bfs_is_no_longer_than_dfs() {
    for start in 0..5 {
        for target in 0..5 {
            let graph = example_layout(target);
            match (bfs(&start, &graph), dfs(&start, &graph)) {
                (Some(short), Some(any)) => assert!(short.len() <= any.len()),
                (None, None) => (),
                (short, any) => panic!("bfs found {:?}, dfs found {:?}", short, any),
            }
        }
    }
}

#[test]
fn paths_start_at_start_and_end_at_goal() {
    let graph = example_layout(3);
    for start in 0..4 {
        let found = [
            bfs(&start, &graph),
            dfs(&start, &graph),
            dijkstra(&start, &graph).map(|f| f.1),
            a_star(&start, &graph, |_| 0).map(|f| f.1),
        ];
        for path in found {
            let path = path.unwrap();
            assert_eq!(start, path[0]);
            assert_eq!(3, path[path.len() - 1]);
        }
    }
}

#[test]
fn unreachable_goal_is_not_found() {
    // node 4 has no way out, and nothing leads to node 5
    let mut graph = example_layout(0);
    assert_eq!(None, bfs(&4, &graph));
    assert_eq!(None, dfs(&4, &graph));
    assert!(dijkstra(&4, &graph).is_none());
    assert!(a_star(&4, &graph, |_| 0).is_none());
    graph.nodes.push(vec![]);
    graph.target = 5;
    assert_eq!(None, bfs(&0, &graph));
    assert_eq!(None, dfs(&0, &graph));
    assert!(dijkstra(&0, &graph).is_none());
    assert!(a_star(&0, &graph, |_| 0).is_none());
}

#[test]
fn repeated_runs_return_the_same_path() {
    // two cheapest walks from 0 to 3: over 1 and over 2
    let graph = Layout {
        nodes: vec![vec![(1, 1), (2, 1)], vec![(3, 1)], vec![(3, 1)], vec![]],
        target: 3,
    };
    let first = dijkstra(&0, &graph).unwrap();
    // equal costs leave the frontier by rising node: 1 is expanded before 2
    assert_eq!(vec![0, 1, 3], first.1);
    assert_eq!(2, first.0[&3]);
    for _ in 0..10 {
        let again = dijkstra(&0, &graph).unwrap();
        assert_eq!(first.1, again.1);
        assert_eq!(first.0, again.0);
    }
    let guided = a_star(&0, &graph, |_| 0).unwrap();
    for _ in 0..10 {
        assert_eq!(guided.1, a_star(&0, &graph, |_| 0).unwrap().1);
    }
}

#[test]
fn dijkstra_keeps_first_of_equal_costs() {
    // 0 -> 1 -> 3 and 0 -> 2 -> 3 cost the same; 1 is expanded first and stays the predecessor
    let graph = Layout {
        nodes: vec![vec![(2, 1), (1, 1)], vec![(3, 1)], vec![(3, 1)], vec![]],
        target: 3,
    };
    assert_eq!(vec![0, 1, 3], dijkstra(&0, &graph).unwrap().1);
    assert_eq!(vec![0, 1, 3], a_star(&0, &graph, |_| 0).unwrap().1);
}

#[test]
fn get_path_walks_back_to_start() {
    let mut moves = HashMap::new();
    moves.insert(3, 2);
    moves.insert(2, 1);
    moves.insert(1, 0);
    assert_eq!(vec![0, 1, 2, 3], get_path(moves.clone(), 3, &0));
    // stops where it steps onto the start
    assert_eq!(vec![1, 2, 3], get_path(moves.clone(), 3, &1));
    // or where the chain runs out
    assert_eq!(vec![0, 1, 2, 3], get_path(moves.clone(), 3, &7));
    assert_eq!(vec![5], get_path(moves, 5, &0));
}

#[test]
fn steps_without_cost_and_cycles_are_no_obstacle() {
    // 0 <-> 1 cost nothing, 1 -> 2 costs nothing, 2 -> 0 closes a cycle, 2 -> 3 costs 4, 0 -> 3 costs 5
    let graph = Layout {
        nodes: vec![
            vec![(1, 0), (3, 5)],
            vec![(0, 0), (2, 0)],
            vec![(0, 0), (3, 4)],
            vec![],
        ],
        target: 3,
    };
    let (dist, path) = dijkstra(&0, &graph).unwrap();
    assert_eq!(4, dist[&3]);
    assert_eq!(vec![0, 1, 2, 3], path);
    assert_eq!(0, dist[&0]);
    assert_eq!(0, dist[&1]);
    assert_eq!(0, dist[&2]);
    let (dist, path) = a_star(&0, &graph, |_| 0).unwrap();
    assert_eq!(4, dist[&3]);
    assert_eq!(vec![0, 1, 2, 3], path);
    assert_eq!(Some(vec![0, 3]), bfs(&0, &graph));
}

#[test]
fn a_start_that_is_a_goal_is_the_whole_path() {
    let graph = example_layout(2);
    assert_eq!(Some(vec![2]), bfs(&2, &graph));
    assert_eq!(Some(vec![2]), dfs(&2, &graph));
    let (dist, path) = dijkstra(&2, &graph).unwrap();
    assert_eq!(vec![2], path);
    assert_eq!(1, dist.len());
    assert_eq!(0, dist[&2]);
    let (dist, path) = a_star(&2, &graph, |_| 0).unwrap();
    assert_eq!(vec![2], path);
    assert_eq!(0, dist[&2]);
}

#[test]
fn dijkstra_drops_overtaken_entries() {
    // 1 is first reached at cost 10 and then improved to 2 over 2; its old entry comes up late
    let graph = Layout {
        nodes: vec![
            vec![(1, 10), (2, 1)],
            vec![(3, 1)],
            vec![(1, 1)],
            vec![(4, 20)],
            vec![],
        ],
        target: 4,
    };
    let (dist, path) = dijkstra(&0, &graph).unwrap();
    assert_eq!(vec![0, 2, 1, 3, 4], path);
    assert_eq!(23, dist[&4]);
    assert_eq!(2, dist[&1]);
    assert_eq!(3, dist[&3]);
    let (dist, path) = a_star(&0, &graph, |_| 0).unwrap();
    assert_eq!(vec![0, 2, 1, 3, 4], path);
    assert_eq!(23, dist[&4]);
}

#[test]
fn dijkstra_records_costs_of_nodes_it_has_only_seen() {
    // the goal 1 leaves the frontier at cost 1; node 2 has only been seen, at cost 9
    let graph = Layout {
        nodes: vec![vec![(2, 9), (1, 1)], vec![], vec![]],
        target: 1,
    };
    let (dist, path) = dijkstra(&0, &graph).unwrap();
    assert_eq!(vec![0, 1], path);
    assert_eq!(Some(&9), dist.get(&2));
    assert_eq!(Some(&1), dist.get(&1));
}

#[test]
fn a_star_with_an_estimate_that_is_too_high_still_finds_a_walk() {
    // the estimate makes the cheap way over 1 look dear
    let graph = Layout {
        nodes: vec![vec![(1, 1), (2, 2)], vec![(3, 1)], vec![(3, 2)], vec![]],
        target: 3,
    };
    let estimate = [0, 100, 0, 0];
    let (dist, path) = a_star(&0, &graph, |n| estimate[*n]).unwrap();
    assert_eq!(vec![0, 2, 3], path);
    assert_eq!(4, dist[&3]);
    let (dist, path) = a_star(&0, &graph, |_| 0).unwrap();
    assert_eq!(vec![0, 1, 3], path);
    assert_eq!(2, dist[&3]);
}

#[test]
fn get_path_from_the_start_is_the_start_alone() {
    let mut moves = HashMap::new();
    moves.insert(0, 1);
    moves.insert(1, 0);
    assert_eq!(vec![0], get_path(moves.clone(), 0, &0));
    assert_eq!(vec![0, 1], get_path(moves.clone(), 1, &0));
    assert_eq!(vec![1], get_path(moves, 1, &1));
    // also where the chain from the start would never end
    let mut round = HashMap::new();
    round.insert(0, 2);
    round.insert(2, 1);
    round.insert(1, 2);
    assert_eq!(vec![0], get_path(round, 0, &0));
}

#[test]
fn breadth_first_prefers_the_neighbour_listed_first() {
    // two walks of two steps lead from 0 to 3
    let graph = Layout {
        nodes: vec![vec![(2, 1), (1, 1)], vec![(3, 1)], vec![(3, 1)], vec![]],
        target: 3,
    };
    assert_eq!(Some(vec![0, 2, 3]), bfs(&0, &graph));
    // depth first takes the neighbour listed last
    assert_eq!(Some(vec![0, 1, 3]), dfs(&0, &graph));
}

#[test]
fn a_costly_edge_off_the_route_is_never_summed() {
    let graph = Layout {
        nodes: vec![
            vec![(3, 5), (1, 1)],
            vec![(2, 1)],
            vec![],
            vec![(4, usize::MAX - 2)],
            vec![],
        ],
        target: 2,
    };
    let (costs, way) = dijkstra(&0, &graph).unwrap();
    assert_eq!(vec![0, 1, 2], way);
    assert_eq!(2, costs[&2]);
    assert_eq!(5, costs[&3]);
    assert!(!costs.contains_key(&4));
    let (costs, way) = a_star(&0, &graph, |_| 0).unwrap();
    assert_eq!(vec![0, 1, 2], way);
    assert_eq!(2, costs[&2]);
    assert!(!costs.contains_key(&4));
}

#[test]
fn a_cost_may_be_the_greatest_number() {
    let graph = Layout {
        nodes: vec![vec![(1, usize::MAX - 1)], vec![(2, 1)], vec![]],
        target: 2,
    };
    let (costs, way) = dijkstra(&0, &graph).unwrap();
    assert_eq!(vec![0, 1, 2], way);
    assert_eq!(usize::MAX, costs[&2]);
    let (costs, way) = a_star(&0, &graph, |node| if *node == 0 { 7 } else { 0 }).unwrap();
    assert_eq!(vec![0, 1, 2], way);
    assert_eq!(usize::MAX, costs[&2]);
}

#[test]
fn the_estimate_is_asked_about_reachable_nodes_only() {
    let graph = Layout {
        nodes: vec![vec![(1, 2)], vec![(2, 2)], vec![], vec![(2, 1)]],
        target: 2,
    };
    let estimate = |node: &usize| {
        assert_ne!(3, *node);
        2 - *node
    };
    let (costs, way) = a_star(&0, &graph, estimate).unwrap();
    assert_eq!(vec![0, 1, 2], way);
    assert_eq!(4, costs[&2]);
}
