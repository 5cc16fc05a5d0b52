use platformer_ai::frontier::{FrontierEntry, PriorityFrontier};

fn entry(f: u64, g: u64, h: usize) -> FrontierEntry {
    FrontierEntry { estimated_total_cost: f, cost_so_far: g, handle: h }
}

#[test]
fn empty_frontier_pops_nothing() {
    let mut q = PriorityFrontier::new();
    assert!(q.is_empty());
    assert_eq!(q.len(), 0);
    assert_eq!(q.pop_min(), None);
}

#[test]
fn pops_by_estimate_then_cost() {
    let mut q = PriorityFrontier::new();
    q.push(entry(7, 1, 0));
    q.push(entry(3, 3, 1));
    q.push(entry(5, 0, 2));
    q.push(entry(3, 1, 3));
    q.push(entry(9, 9, 4));
    assert_eq!(q.len(), 5);
    assert_eq!(q.pop_min(), Some(entry(3, 1, 3)));
    assert_eq!(q.pop_min(), Some(entry(3, 3, 1)));
    assert_eq!(q.pop_min(), Some(entry(5, 0, 2)));
    assert_eq!(q.pop_min(), Some(entry(7, 1, 0)));
    assert_eq!(q.pop_min(), Some(entry(9, 9, 4)));
    assert_eq!(q.pop_min(), None);
}

#[test]
fn keeps_duplicate_entries() {
    let mut q = PriorityFrontier::new();
    q.push(entry(4, 2, 1));
    q.push(entry(4, 2, 1));
    q.push(entry(1, 1, 0));
    assert_eq!(q.len(), 3);
    assert_eq!(q.pop_min(), Some(entry(1, 1, 0)));
    assert_eq!(q.pop_min(), Some(entry(4, 2, 1)));
    assert_eq!(q.pop_min(), Some(entry(4, 2, 1)));
    assert!(q.is_empty());
}

#[test]
fn many_entries_come_out_sorted() {
    let mut q = PriorityFrontier::new();
    let mut x: u64 = 12345;
    for i in 0..200 {
        x = (x * 1103515245 + 12345) % 2147483648;
        q.push(entry(x % 50, (x / 50) % 7, i));
    }
    let mut last = (0u64, 0u64);
    let mut n = 0;
    while let Some(e) = q.pop_min() {
        let key = (e.estimated_total_cost, e.cost_so_far);
        assert!(key >= last);
        last = key;
        n += 1;
    }
    assert_eq!(n, 200);
}
