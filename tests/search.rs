use platformer_ai::search::astar;

fn line_successors(n: char) -> Vec<(char, u64)> {
    match n {
        'A' => vec![('B', 1)],
        'B' => vec![('C', 1)],
        _ => vec![],
    }
}

fn detour_successors(n: char) -> Vec<(char, u64)> {
    match n {
        'A' => vec![('B', 5), ('C', 1)],
        'C' => vec![('B', 1)],
        _ => vec![],
    }
}

#[test]
fn line_graph_reaches_end() {
    let r = astar('A', line_successors, |_| 0, |n| n == 'C');
    assert_eq!(r, Some((vec!['A', 'B', 'C'], 2)));
}

#[test]
fn cheaper_detour_is_taken() {
    let r = astar('A', detour_successors, |_| 0, |n| n == 'B');
    assert_eq!(r, Some((vec!['A', 'C', 'B'], 2)));
}

#[test]
fn start_already_goal() {
    let r = astar(
        'A',
        |_: char| -> Vec<(char, u64)> { panic!("successors must not be expanded") },
        |_| 0,
        |n| n == 'A',
    );
    assert_eq!(r, Some((vec!['A'], 0)));
}

#[test]
fn start_without_successors_finds_nothing() {
    let r = astar('A', |_: char| Vec::new(), |_| 0, |n| n == 'B');
    assert_eq!(r, None);
}

#[test]
fn rerun_gives_same_result() {
    let first = astar('A', detour_successors, |_| 0, |n| n == 'B');
    for _ in 0..5 {
        let again = astar('A', detour_successors, |_| 0, |n| n == 'B');
        assert_eq!(again, first);
    }
}

#[test]
fn unreachable_goal_in_cycle_finds_nothing() {
    let succ = |n: u32| -> Vec<(u32, u64)> { vec![((n + 1) % 4, 1)] };
    let r = astar(0u32, succ, |_| 0, |n| n == 7);
    assert_eq!(r, None);
}

#[test]
fn stale_entry_does_not_keep_costlier_parent() {
    // D is first reached through B at cost 10, then through C at cost 3;
    // the path must go through C.
    let succ = |n: char| -> Vec<(char, u64)> {
        match n {
            'A' => vec![('B', 1), ('C', 2)],
            'B' => vec![('D', 9)],
            'C' => vec![('D', 1)],
            'D' => vec![('E', 1)],
            _ => vec![],
        }
    };
    let r = astar('A', succ, |_| 0, |n| n == 'E');
    assert_eq!(r, Some((vec!['A', 'C', 'D', 'E'], 4)));
}

#[test]
fn node_improved_after_expansion_is_expanded_again() {
    // With an inadmissible estimate on C, B is expanded at cost 5 before the
    // cheaper route through C lowers it to 2; the goal is then reached
    // through the improved record.
    let succ = |n: char| -> Vec<(char, u64)> {
        match n {
            'A' => vec![('B', 5), ('C', 1)],
            'C' => vec![('B', 1)],
            'B' => vec![('G', 10)],
            _ => vec![],
        }
    };
    let h = |n: char| -> u64 {
        match n {
            'C' => 4,
            _ => 0,
        }
    };
    let r = astar('A', succ, h, |n| n == 'G');
    assert_eq!(r, Some((vec!['A', 'C', 'B', 'G'], 12)));
}

#[test]
fn grid_with_manhattan_heuristic() {
    // A 4x3 grid with a wall at column 1, rows 0 and 1: the route has to go
    // round it through row 2.
    let walkable = |x: i32, y: i32| x >= 0 && x < 4 && y >= 0 && y < 3 && !(x == 1 && y < 2);
    let succ = move |(x, y): (i32, i32)| -> Vec<((i32, i32), u64)> {
        let mut out = Vec::new();
        for (dx, dy) in [(1, 0), (-1, 0), (0, 1), (0, -1)] {
            if walkable(x + dx, y + dy) {
                out.push(((x + dx, y + dy), 1));
            }
        }
        out
    };
    let goal = (3, 0);
    let h = move |(x, y): (i32, i32)| ((goal.0 - x).abs() + (goal.1 - y).abs()) as u64;
    let r = astar((0, 0), succ, h, move |n| n == goal);
    let (path, cost) = r.expect("a route exists");
    assert_eq!(cost, 7);
    assert_eq!(path.len(), 8);
    assert_eq!(path[0], (0, 0));
    assert_eq!(path[7], goal);
    for pair in path.windows(2) {
        let d = (pair[0].0 - pair[1].0).abs() + (pair[0].1 - pair[1].1).abs();
        assert_eq!(d, 1);
        assert!(walkable(pair[1].0, pair[1].1));
    }
}

#[test]
fn zero_cost_edges() {
    let succ = |n: u8| -> Vec<(u8, u64)> {
        match n {
            0 => vec![(1, 0), (2, 0)],
            1 => vec![(0, 0), (2, 0)],
            2 => vec![(3, 0)],
            _ => vec![],
        }
    };
    let r = astar(0u8, succ, |_| 0, |n| n == 3);
    assert_eq!(r, Some((vec![0, 2, 3], 0)));
}

#[test]
fn step_past_cost_range_is_not_taken() {
    let succ = |n: u8| -> Vec<(u8, u64)> {
        match n {
            0 => vec![(1, u64::MAX)],
            1 => vec![(2, 1)],
            _ => vec![],
        }
    };
    assert_eq!(astar(0u8, succ, |_| 0, |n| n == 1), Some((vec![0, 1], u64::MAX)));
    assert_eq!(astar(0u8, succ, |_| 0, |n| n == 2), None);
}

#[test]
fn large_estimate_saturates() {
    let succ = |n: u8| -> Vec<(u8, u64)> {
        match n {
            0 => vec![(1, 3), (2, 1)],
            2 => vec![(1, 1)],
            _ => vec![],
        }
    };
    // The estimate on 2 saturates the entry's bound, so the dearer direct
    // step to 1 is popped first.
    let r = astar(0u8, succ, |n| if n == 1 { 0 } else { u64::MAX }, |n| n == 1);
    assert_eq!(r, Some((vec![0, 1], 3)));
}

#[test]
fn first_goal_popped_ends_the_search() {
    // Two goals: the nearer one wins.
    let succ = |n: u8| -> Vec<(u8, u64)> {
        match n {
            0 => vec![(1, 4), (2, 2)],
            _ => vec![],
        }
    };
    let r = astar(0u8, succ, |_| 0, |n| n == 1 || n == 2);
    assert_eq!(r, Some((vec![0, 2], 2)));
}
