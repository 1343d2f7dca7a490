use dsa_practice::queues::{
    max_sliding_window_deque, num_islands, num_squares, open_lock, MyCircularQueue, MyQueue,
    MyStack, PriorityQueue,
};

#[test]
fn test_my_queue() {
    let mut queue = MyQueue::new();
    queue.push(1);
    queue.push(2);
    assert_eq!(queue.peek(), 1);
    assert_eq!(queue.pop(), 1);
    assert_eq!(queue.pop(), 2);
    assert_eq!(queue.empty(), true);
}

#[test]
fn test_my_queue_interleaved() {
    let mut queue = MyQueue::new();
    queue.push(1);
    queue.push(2);
    assert_eq!(queue.pop(), 1);
    queue.push(3);
    assert_eq!(queue.pop(), 2);
    assert_eq!(queue.peek(), 3);
    assert_eq!(queue.empty(), false);
    assert_eq!(queue.pop(), 3);
    assert_eq!(queue.empty(), true);
}

#[test]
fn test_my_stack() {
    let mut stack = MyStack::new();
    stack.push(1);
    stack.push(2);
    assert_eq!(stack.top(), 2);
    assert_eq!(stack.pop(), 2);
    assert_eq!(stack.pop(), 1);
    assert_eq!(stack.empty(), true);
}

#[test]
fn test_circular_queue() {
    let mut cq = MyCircularQueue::new(3);
    assert_eq!(cq.en_queue(1), true);
    assert_eq!(cq.en_queue(2), true);
    assert_eq!(cq.en_queue(3), true);
    assert_eq!(cq.en_queue(4), false);
    assert_eq!(cq.rear(), 3);
    assert_eq!(cq.is_full(), true);
    assert_eq!(cq.de_queue(), true);
    assert_eq!(cq.en_queue(4), true);
    assert_eq!(cq.rear(), 4);
}

#[test]
fn test_circular_queue_wraps() {
    let mut cq = MyCircularQueue::new(2);
    assert_eq!(cq.de_queue(), false);
    assert_eq!(cq.front(), -1);
    assert_eq!(cq.rear(), -1);
    assert_eq!(cq.en_queue(7), true);
    assert_eq!(cq.en_queue(8), true);
    assert_eq!(cq.de_queue(), true);
    assert_eq!(cq.en_queue(9), true);
    assert_eq!(cq.front(), 8);
    assert_eq!(cq.rear(), 9);
}

#[test]
fn test_priority_queue() {
    let mut pq = PriorityQueue::new();
    pq.push(3);
    pq.push(1);
    pq.push(4);
    assert_eq!(pq.peek(), Some(&4));
    assert_eq!(pq.pop(), Some(4));
    assert_eq!(pq.pop(), Some(3));
    assert_eq!(pq.pop(), Some(1));
}

#[test]
fn test_priority_queue_duplicates() {
    let mut pq = PriorityQueue::new();
    assert!(pq.is_empty());
    pq.push(5);
    pq.push(5);
    pq.push(2);
    assert_eq!(pq.len(), 3);
    assert_eq!(pq.pop(), Some(5));
    assert_eq!(pq.pop(), Some(5));
    assert_eq!(pq.pop(), Some(2));
    assert_eq!(pq.pop(), None);
}

#[test]
fn test_max_sliding_window_deque() {
    let nums = vec![1, 3, -1, -3, 5, 3, 6, 7];
    assert_eq!(max_sliding_window_deque(&nums, 3), vec![3, 3, 5, 5, 6, 7]);
}

#[test]
fn test_num_islands() {
    let mut grid = vec![
        vec!['1', '1', '0', '0', '0'],
        vec!['1', '1', '0', '0', '0'],
        vec!['0', '0', '1', '0', '0'],
        vec!['0', '0', '0', '1', '1'],
    ];
    assert_eq!(num_islands(&mut grid), 3);
}

#[test]
fn test_num_islands_all_water() {
    let mut grid = vec![vec!['0', '0'], vec!['0', '0']];
    assert_eq!(num_islands(&mut grid), 0);
    let mut grid: Vec<Vec<char>> = vec![];
    assert_eq!(num_islands(&mut grid), 0);
}

#[test]
fn test_num_islands_single_cell() {
    let mut grid = vec![vec!['0', '0'], vec!['0', '1']];
    assert_eq!(num_islands(&mut grid), 1);
    assert_eq!(grid, vec![vec!['0', '0'], vec!['0', '0']]);
}

#[test]
fn test_num_islands_diagonals_do_not_merge() {
    let mut grid = vec![
        vec!['1', '0', '1'],
        vec!['0', '1', '0'],
        vec!['1', '0', '1'],
    ];
    assert_eq!(num_islands(&mut grid), 5);
}

#[test]
fn test_num_islands_reflection_keeps_count() {
    let base = vec![
        vec!['1', '1', '0', '0', '0'],
        vec!['1', '1', '0', '0', '0'],
        vec!['0', '0', '1', '0', '0'],
        vec!['0', '0', '0', '1', '1'],
    ];
    let mut reflected_rows: Vec<Vec<char>> = base.iter().rev().cloned().collect();
    let mut reflected_cols: Vec<Vec<char>> = base
        .iter()
        .map(|row| row.iter().rev().cloned().collect())
        .collect();
    let mut plain = base.clone();
    let count = num_islands(&mut plain);
    assert_eq!(num_islands(&mut reflected_rows), count);
    assert_eq!(num_islands(&mut reflected_cols), count);
}

#[test]
fn test_open_lock() {
    let deadends = vec![
        "0201".to_string(),
        "0101".to_string(),
        "0102".to_string(),
        "1212".to_string(),
        "2002".to_string(),
    ];
    let target = "0202".to_string();
    assert_eq!(open_lock(deadends, target), 6);
}

#[test]
fn test_open_lock_start_is_target() {
    assert_eq!(open_lock(vec![], "0000".to_string()), 0);
}

#[test]
fn test_open_lock_forbidden_start() {
    let deadends = vec!["0000".to_string()];
    assert_eq!(open_lock(deadends, "0202".to_string()), -1);
}

#[test]
fn test_open_lock_one_turn() {
    assert_eq!(open_lock(vec![], "0009".to_string()), 1);
    assert_eq!(open_lock(vec![], "1000".to_string()), 1);
}

#[test]
fn test_open_lock_unreachable() {
    let deadends = vec![
        "0001".to_string(),
        "0009".to_string(),
        "0010".to_string(),
        "0090".to_string(),
        "0100".to_string(),
        "0900".to_string(),
        "1000".to_string(),
        "9000".to_string(),
    ];
    assert_eq!(open_lock(deadends, "8888".to_string()), -1);
}

#[test]
fn test_num_squares() {
    assert_eq!(num_squares(12), 3);
    assert_eq!(num_squares(13), 2);
}

#[test]
fn test_num_squares_edges() {
    assert_eq!(num_squares(0), 0);
    assert_eq!(num_squares(1), 1);
    assert_eq!(num_squares(16), 1);
    assert_eq!(num_squares(7), 4);
    assert_eq!(num_squares(23), 4);
}

fn ground_truth_counts(limit: usize) -> Vec<i32> {
    let mut dp = vec![i32::MAX; limit + 1];
    dp[0] = 0;
    for v in 1..=limit {
        let mut s = 1;
        while s * s <= v {
            if dp[v - s * s] + 1 < dp[v] {
                dp[v] = dp[v - s * s] + 1;
            }
            s += 1;
        }
    }
    dp
}

#[test]
fn test_num_squares_matches_ground_truth() {
    let dp = ground_truth_counts(200);
    for v in 1..=200 {
        assert_eq!(num_squares(v as i32), dp[v]);
    }
}
