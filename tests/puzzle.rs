use std::collections::HashMap;
use std::collections::VecDeque;

use eight_puzzle::board::{Board, Direction};
use eight_puzzle::frontier::Frontier;
use eight_puzzle::heuristics::Heuristic;
use eight_puzzle::search::{search, weighted_search, Stats};

const ALL: [Direction; 4] = [Direction::Up, Direction::Down, Direction::Left, Direction::Right];

/// Distance to the goal of every board that can reach it, by breadth-first search.
fn distances() -> HashMap<Board, u32> {
    let goal = Board::goal();
    let mut dist: HashMap<Board, u32> = HashMap::new();
    let mut queue: VecDeque<Board> = VecDeque::new();
    dist.insert(goal, 0);
    queue.push_back(goal);
    while let Some(b) = queue.pop_front() {
        let d = dist[&b];
        for dir in ALL {
            if let Some(n) = b.apply(dir) {
                if !dist.contains_key(&n) {
                    dist.insert(n, d + 1);
                    queue.push_back(n);
                }
            }
        }
    }
    dist
}

/// A board reached from the goal by `steps` pseudo-random moves.
fn scrambled(seed: u64, steps: usize) -> Board {
    let mut b = Board::goal();
    let mut x = seed;
    for _ in 0..steps {
        x = x.wrapping_mul(6364136223846793005).wrapping_add(1442695040888963407);
        let dir = ALL[((x >> 33) % 4) as usize];
        if let Some(n) = b.apply(dir) {
            b = n;
        }
    }
    b
}

/// Benchmark instances: known optimal cost and board.
fn instances(count: usize) -> Vec<(u32, Board)> {
    let dist = distances();
    let mut out = Vec::new();
    let mut seed = 1;
    while out.len() < count {
        let b = scrambled(seed, 10 + (seed as usize * 7) % 50);
        out.push((dist[&b], b));
        seed += 1;
    }
    out
}

fn rows(b: &Board) -> [[u8; 3]; 3] {
    let mut g = [[0u8; 3]; 3];
    for r in 0..3 {
        for c in 0..3 {
            g[r][c] = b.value_at(r, c);
        }
    }
    g
}

#[test]
fn test_heuristic() {
    let board = Board::new([[8, 7, 3], [2, 0, 5], [1, 4, 6]]);
    assert_eq!(Heuristic::Blind.estimate(&board), 0);
    assert_eq!(Heuristic::Hamming.estimate(&board), 8);
    assert_eq!(Heuristic::Manhattan.estimate(&board), 16);
}

#[test]
fn test_search() {
    for (expected_cost, init) in &instances(20) {
        let (path, _stats) = search(*init, Heuristic::Manhattan);
        let path = path.expect("no plan");
        assert!(init.is_valid_plan(&path));
        assert_eq!(path.len(), *expected_cost as usize);
    }
}

#[test]
fn test_weighted_search() {
    for (_expected_cost, init) in &instances(20) {
        let (path, _stats) = weighted_search(*init, Heuristic::Manhattan, 100000);
        let path = path.expect("no plan");
        assert!(init.is_valid_plan(&path));
    }
}

#[test]
fn blind_search_is_optimal() {
    for (expected_cost, init) in &instances(20) {
        if *expected_cost > 14 {
            continue;
        }
        let (path, _stats) = search(*init, Heuristic::Blind);
        let path = path.expect("no plan");
        assert!(init.is_valid_plan(&path));
        assert_eq!(path.len(), *expected_cost as usize);
    }
}

#[test]
fn weight_one_matches_plain_search() {
    for (_expected_cost, init) in &instances(10) {
        let (a, _) = search(*init, Heuristic::Manhattan);
        let (b, _) = weighted_search(*init, Heuristic::Manhattan, 1);
        assert_eq!(a.unwrap().len(), b.unwrap().len());
    }
}

#[test]
fn weight_zero_is_uniform_cost() {
    let init = Board::new([[1, 2, 3], [4, 0, 6], [7, 5, 8]]);
    let (plan, _) = weighted_search(init, Heuristic::Manhattan, 0);
    assert_eq!(plan.unwrap(), vec![Direction::Down, Direction::Right]);
}

#[test]
fn odd_parity_has_no_plan() {
    let init = Board::new([[2, 1, 3], [4, 5, 6], [7, 8, 0]]);
    let (plan, stats) = search(init, Heuristic::Manhattan);
    assert!(plan.is_none());
    assert!(stats.expanded > 0);
}

#[test]
fn goal_needs_no_move() {
    let (plan, stats) = search(Board::goal(), Heuristic::Manhattan);
    assert_eq!(plan.unwrap(), Vec::<Direction>::new());
    assert_eq!(stats.expanded, 0);
}

#[test]
fn one_move_from_goal() {
    let init = Board::new([[1, 2, 3], [4, 5, 6], [7, 0, 8]]);
    let (plan, _) = search(init, Heuristic::Hamming);
    assert_eq!(plan.unwrap(), vec![Direction::Right]);
}

#[test]
fn heuristics_on_goal_are_zero() {
    let g = Board::goal();
    assert_eq!(Heuristic::Blind.estimate(&g), 0);
    assert_eq!(Heuristic::Hamming.estimate(&g), 0);
    assert_eq!(Heuristic::Manhattan.estimate(&g), 0);
}

#[test]
fn manhattan_counts_the_blank() {
    let b = Board::new([[1, 2, 3], [4, 5, 6], [7, 0, 8]]);
    assert_eq!(Heuristic::Manhattan.estimate(&b), 2);
    assert_eq!(Heuristic::Hamming.estimate(&b), 2);
    let far = Board::new([[0, 8, 7], [6, 5, 4], [3, 2, 1]]);
    assert_eq!(Heuristic::Manhattan.estimate(&far), 24);
    assert_eq!(Heuristic::Hamming.estimate(&far), 8);
}

#[test]
fn manhattan_within_twice_the_distance() {
    let dist = distances();
    let mut seed = 100;
    for _ in 0..50 {
        let b = scrambled(seed, 30);
        let h = Heuristic::Manhattan.estimate(&b);
        assert!(h <= 2 * dist[&b]);
        seed += 1;
    }
}

#[test]
fn up_from_top_row_fails() {
    let b = Board::new([[1, 0, 3], [4, 2, 5], [7, 8, 6]]);
    assert!(b.apply(Direction::Up).is_none());
    assert!(Board::goal().apply(Direction::Down).is_none());
    assert!(Board::goal().apply(Direction::Right).is_none());
}

#[test]
fn apply_swaps_blank_and_tile() {
    let b = Board::new([[1, 0, 3], [4, 2, 5], [7, 8, 6]]);
    let n = b.apply(Direction::Down).unwrap();
    assert_eq!(rows(&n), [[1, 2, 3], [4, 0, 5], [7, 8, 6]]);
    let l = b.apply(Direction::Left).unwrap();
    assert_eq!(rows(&l), [[0, 1, 3], [4, 2, 5], [7, 8, 6]]);
}

#[test]
fn apply_then_opposite_restores() {
    let mut seed = 7;
    for _ in 0..30 {
        let b = scrambled(seed, 25);
        for d in ALL {
            if let Some(n) = b.apply(d) {
                assert_eq!(n.apply(d.opposite()).unwrap(), b);
            }
        }
        seed += 1;
    }
}

#[test]
fn opposite_directions() {
    assert_eq!(Direction::Up.opposite(), Direction::Down);
    assert_eq!(Direction::Down.opposite(), Direction::Up);
    assert_eq!(Direction::Left.opposite(), Direction::Right);
    assert_eq!(Direction::Right.opposite(), Direction::Left);
}

#[test]
fn plan_validation() {
    let b = Board::new([[1, 2, 3], [4, 0, 6], [7, 5, 8]]);
    assert!(b.is_valid_plan(&vec![Direction::Down, Direction::Right]));
    assert!(!b.is_valid_plan(&vec![Direction::Right, Direction::Down]));
    assert!(!b.is_valid_plan(&vec![Direction::Down]));
    assert!(!b.is_valid_plan(&vec![Direction::Down, Direction::Down, Direction::Right]));
    assert!(Board::goal().is_valid_plan(&vec![]));
}

#[test]
fn board_cells_and_key() {
    let b = Board::new([[8, 7, 3], [2, 0, 5], [1, 4, 6]]);
    assert_eq!(b.value_at(0, 0), 8);
    assert_eq!(b.value_at(1, 1), 0);
    assert_eq!(b.value_at(2, 2), 6);
    assert_eq!(Board::goal().key(), 0x087654321);
    assert!(b.same_as(&b));
    assert!(!b.same_as(&Board::goal()));
}

#[test]
fn frontier_pops_least_priority_first() {
    let mut f: Frontier<u32> = Frontier::new();
    assert!(f.is_empty());
    assert_eq!(f.pop(), None);
    f.insert(10, 5);
    f.insert(20, 2);
    f.insert(30, 9);
    f.insert(40, 2);
    f.insert(10, 1);
    assert_eq!(f.len(), 5);
    assert_eq!(f.pop(), Some((10, 1)));
    assert_eq!(f.pop(), Some((20, 2)));
    assert_eq!(f.pop(), Some((40, 2)));
    assert_eq!(f.pop(), Some((10, 5)));
    assert_eq!(f.pop(), Some((30, 9)));
    assert!(f.is_empty());
    assert_eq!(f.pop(), None);
}

#[test]
fn stats_hold_their_figures() {
    let s = Stats::new(42, std::time::Duration::from_nanos(7));
    assert_eq!(s.expanded, 42);
    assert_eq!(s.runtime.as_nanos(), 7);
}

#[test]
fn one_move_down_to_goal() {
    let init = Board::new([[1, 2, 3], [4, 5, 0], [7, 8, 6]]);
    let (plan, _) = search(init, Heuristic::Manhattan);
    assert_eq!(plan.unwrap(), vec![Direction::Down]);
    let (plan, _) = search(init, Heuristic::Blind);
    assert_eq!(plan.unwrap(), vec![Direction::Down]);
}

#[test]
fn one_move_right_weighted() {
    let init = Board::new([[1, 2, 3], [4, 5, 6], [7, 0, 8]]);
    let (plan, _) = weighted_search(init, Heuristic::Manhattan, 1);
    assert_eq!(plan.unwrap(), vec![Direction::Right]);
}

#[test]
fn goal_with_weight_five() {
    let (plan, stats) = weighted_search(Board::goal(), Heuristic::Manhattan, 5);
    assert_eq!(plan.unwrap(), Vec::<Direction>::new());
    assert_eq!(stats.expanded, 0);
}

#[test]
fn same_input_same_result() {
    for (_c, init) in &instances(5) {
        let (a, sa) = search(*init, Heuristic::Manhattan);
        let (b, sb) = search(*init, Heuristic::Manhattan);
        assert_eq!(a, b);
        assert_eq!(sa.expanded, sb.expanded);
    }
}

#[test]
fn weighted_plans_within_bound() {
    for (expected_cost, init) in &instances(10) {
        for w in [2u32, 3, 5] {
            let (plan, _) = weighted_search(*init, Heuristic::Manhattan, w);
            let plan = plan.unwrap();
            assert!(init.is_valid_plan(&plan));
            assert!(plan.len() <= 2 * w as usize * *expected_cost as usize);
        }
        let (plan, _) = weighted_search(*init, Heuristic::Hamming, 0);
        assert_eq!(plan.unwrap().len(), *expected_cost as usize);
    }
}
