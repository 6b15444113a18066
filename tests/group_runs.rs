use zmq_collectives::combine::ReduceOp;
use zmq_collectives::local::{run_broadcast, run_gather, run_reduce, run_scatter};

#[test]
fn broadcast_two_ranks() {
    assert_eq!(run_broadcast(vec![1, 0]), vec![1, 1]);
}

#[test]
fn broadcast_five_ranks() {
    assert_eq!(run_broadcast(vec![7, 0, 3, 0, 9]), vec![7, 7, 7, 7, 7]);
}

#[test]
fn broadcast_one_rank() {
    assert_eq!(run_broadcast(vec![42]), vec![42]);
}

#[test]
fn reduce_four_ranks_sum() {
    let items = vec![vec![1, 1, 1, 1]; 4];
    assert_eq!(run_reduce(ReduceOp::Sum, 0, &items), 16);
}

#[test]
fn reduce_three_ranks_min_max() {
    let items = vec![vec![5, 9], vec![2], vec![7, 11, 3]];
    assert_eq!(run_reduce(ReduceOp::Min, u64::MAX, &items), 2);
    assert_eq!(run_reduce(ReduceOp::Max, 0, &items), 11);
    assert_eq!(run_reduce(ReduceOp::Sum, 0, &items), 37);
}

#[test]
fn reduce_sum_wraps() {
    let items = vec![vec![u64::MAX], vec![2]];
    assert_eq!(run_reduce(ReduceOp::Sum, 0, &items), 1);
}

#[test]
fn scatter_two_ranks() {
    let out = run_scatter(&vec![1, 1, 1, 1], 2);
    assert_eq!(out, vec![vec![1, 1], vec![1, 1]]);
}

#[test]
fn scatter_five_ranks_blocks_in_order() {
    let x: Vec<u64> = (0..10).collect();
    let out = run_scatter(&x, 5);
    assert_eq!(out, vec![vec![0, 1], vec![2, 3], vec![4, 5], vec![6, 7], vec![8, 9]]);
}

#[test]
fn gather_two_ranks() {
    let out = run_gather(&vec![vec![1, 1], vec![1, 1]]);
    assert_eq!(out, vec![1, 1, 1, 1]);
}

#[test]
fn gather_three_ranks_in_rank_order() {
    let out = run_gather(&vec![vec![1], vec![2, 3], vec![4]]);
    assert_eq!(out, vec![1, 2, 3, 4]);
}

#[test]
fn scatter_then_gather_gives_input_back() {
    for n in 1..9usize {
        let x: Vec<u64> = (0..(3 * n as u64)).map(|i| i * 7 + 1).collect();
        let blocks = run_scatter(&x, n);
        assert_eq!(run_gather(&blocks), x);
    }
}

#[test]
fn collective_sequence_four_ranks() {
    let b1 = run_broadcast(vec![5, 0, 0, 0]);
    assert_eq!(b1, vec![5, 5, 5, 5]);
    let token = run_broadcast(vec![1, 1, 1, 1]);
    assert_eq!(token, vec![1, 1, 1, 1]);
    let count = run_reduce(ReduceOp::Sum, 0, &vec![vec![1, 1]; 4]);
    assert_eq!(count, 8);
    let total = run_reduce(ReduceOp::Sum, 0, &vec![vec![1, 1, 1, 1]; 4]);
    assert_eq!(total, 16);
    let count = run_reduce(ReduceOp::Sum, 0, &vec![vec![1, 1]; 4]);
    assert_eq!(count, 8);
    assert_eq!(run_broadcast(vec![total, 0, 0, 0]), vec![16, 16, 16, 16]);
}
