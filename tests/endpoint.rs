use std::collections::VecDeque;
use zmq_collectives::codec::{encode_items, encode_value, CommError};
use zmq_collectives::collectives::{barrier, broadcast, gather, reduce, scatter};
use zmq_collectives::combine::ReduceOp;
use zmq_collectives::config::Params;
use zmq_collectives::endpoint::{Endpoint, Transport};

#[derive(Default)]
struct Scripted {
    inbound: VecDeque<Vec<u8>>,
    outbound: usize,
    inbound_probes: usize,
    sent: Vec<(Vec<u8>, Vec<u8>)>,
    connects: Vec<usize>,
    releases: usize,
}

impl Transport for Scripted {
    fn connect(&mut self, rank: usize) {
        self.connects.push(rank);
    }
    fn drain_outbound(&mut self) {
        self.outbound += 1;
    }
    fn drain_inbound(&mut self) {
        self.inbound_probes += 1;
    }
    fn recv_multipart(&mut self) -> (Vec<u8>, Vec<u8>) {
        let identity = self.inbound.pop_front().unwrap_or_default();
        let payload = self.inbound.pop_front().unwrap_or_default();
        (identity, payload)
    }
    fn send_multipart(&mut self, identity: Vec<u8>, payload: Vec<u8>) {
        self.sent.push((identity, payload));
    }
    fn release(&mut self) {
        self.releases += 1;
    }
}

fn endpoint(n: usize, rank: usize, inbound: Vec<Vec<u8>>) -> Endpoint<Scripted> {
    let addresses = (0..n).map(|i| format!("127.0.0.1:{}", 5555 + i)).collect();
    let params = Params::new(n, rank, addresses).unwrap();
    let transport = Scripted { inbound: inbound.into(), ..Default::default() };
    Endpoint::new(&params, transport)
}

#[test]
fn broadcast_root_sends_value() {
    let mut ep = endpoint(2, 0, vec![]);
    let mut val: u64 = 1;
    assert_eq!(broadcast(&mut ep, &mut val), Ok(()));
    assert_eq!(val, 1);
    let sent = &ep.transport().sent;
    assert_eq!(sent.len(), 1);
    assert_eq!(sent[0].0, b"1".to_vec());
    assert_eq!(sent[0].1, vec![1, 0, 0, 0, 0, 0, 0, 0]);
}

#[test]
fn broadcast_eight_ranks_root_sends_down_the_halves() {
    let mut ep = endpoint(8, 0, vec![]);
    let mut val: u64 = 3;
    assert_eq!(broadcast(&mut ep, &mut val), Ok(()));
    let to: Vec<Vec<u8>> = ep.transport().sent.iter().map(|m| m.0.clone()).collect();
    assert_eq!(to, vec![b"4".to_vec(), b"2".to_vec(), b"1".to_vec()]);
}

#[test]
fn broadcast_receiver_takes_root_value() {
    let mut ep = endpoint(2, 1, vec![b"0".to_vec(), encode_value(1)]);
    let mut val: u64 = 0;
    assert_eq!(broadcast(&mut ep, &mut val), Ok(()));
    assert_eq!(val, 1);
}

#[test]
fn broadcast_receiver_reports_undecodable_payload() {
    let mut ep = endpoint(2, 1, vec![b"0".to_vec(), vec![1, 2, 3]]);
    let mut val: u64 = 0;
    assert_eq!(broadcast(&mut ep, &mut val), Err(CommError::Decode));
    assert_eq!(val, 0);
    assert!(ep.transport().sent.is_empty());
}

#[test]
fn broadcast_middle_rank_receives_then_forwards() {
    let mut ep = endpoint(4, 2, vec![b"0".to_vec(), encode_value(6)]);
    let mut val: u64 = 0;
    assert_eq!(broadcast(&mut ep, &mut val), Ok(()));
    assert_eq!(val, 6);
    assert_eq!(ep.transport().sent, vec![(b"3".to_vec(), encode_value(6))]);
}

#[test]
fn reduce_root_combines_child() {
    let mut ep = endpoint(2, 0, vec![b"1".to_vec(), encode_value(4)]);
    assert_eq!(reduce(&mut ep, ReduceOp::Sum, 0, &[1, 1, 1, 1]), Ok(8));
}

#[test]
fn reduce_single_rank_folds_locally() {
    let mut ep = endpoint(1, 0, vec![]);
    assert_eq!(reduce(&mut ep, ReduceOp::Max, 0, &[3, 9, 4]), Ok(9));
}

#[test]
fn reduce_root_reports_undecodable_partial() {
    let mut ep = endpoint(2, 0, vec![b"1".to_vec(), vec![]]);
    assert_eq!(reduce(&mut ep, ReduceOp::Sum, 0, &[1]), Err(CommError::Decode));
}

#[test]
fn barrier_two_ranks_root() {
    let mut ep = endpoint(2, 0, vec![b"1".to_vec(), encode_value(2)]);
    assert_eq!(barrier(&mut ep), Ok(()));
}

#[test]
fn scatter_root_keeps_first_block() {
    let mut ep = endpoint(2, 0, vec![]);
    let mut out = vec![0, 0];
    assert_eq!(scatter(&mut ep, &[1, 2, 3, 4], 4, &mut out), Ok(()));
    assert_eq!(out, vec![1, 2]);
    assert_eq!(ep.transport().sent, vec![(b"1".to_vec(), encode_items(&[3, 4]))]);
}

#[test]
fn scatter_receiver_keeps_its_block() {
    let mut ep = endpoint(2, 1, vec![b"0".to_vec(), encode_items(&[3, 4])]);
    let mut out = vec![0, 0];
    assert_eq!(scatter(&mut ep, &[], 4, &mut out), Ok(()));
    assert_eq!(out, vec![3, 4]);
}

#[test]
fn gather_root_appends_child_block() {
    let mut ep = endpoint(2, 0, vec![b"1".to_vec(), encode_items(&[1, 1])]);
    let mut out = vec![0, 0, 0, 0];
    assert_eq!(gather(&mut ep, &[1, 1], &mut out), Ok(()));
    assert_eq!(out, vec![1, 1, 1, 1]);
}

#[test]
fn gather_child_leaves_out_alone() {
    let mut ep = endpoint(2, 1, vec![]);
    let mut out = vec![9];
    assert_eq!(gather(&mut ep, &[1, 1], &mut out), Ok(()));
    assert_eq!(out, vec![9]);
    assert_eq!(ep.transport().sent, vec![(b"0".to_vec(), encode_items(&[1, 1]))]);
}

#[test]
fn gather_root_reports_truncated_buffer() {
    let mut bad = encode_items(&[1, 2]);
    bad.truncate(12);
    let mut ep = endpoint(2, 0, vec![b"1".to_vec(), bad]);
    let mut out = vec![];
    assert_eq!(gather(&mut ep, &[1], &mut out), Err(CommError::Decode));
}

#[test]
fn initialize_runs_once_and_finalize_twice_is_harmless() {
    let mut ep = endpoint(3, 1, vec![]);
    assert!(ep.initialize().is_ok());
    assert_eq!(ep.transport().connects, vec![0, 2]);
    assert_eq!(ep.transport().outbound, 2);
    assert_eq!(ep.transport().inbound_probes, 2);
    assert!(ep.initialize().is_err());
    assert_eq!(ep.transport().inbound_probes, 2);
    assert_eq!(ep.transport().connects, vec![0, 2]);
    ep.finalize();
    ep.finalize();
    assert_eq!(ep.transport().releases, 1);
    assert!(ep.initialize().is_err());
}

#[test]
fn scatter_receiver_keeps_out_on_bad_payload() {
    let mut ep = endpoint(2, 1, vec![b"0".to_vec(), vec![9, 9]]);
    let mut out = vec![7, 7];
    assert_eq!(scatter(&mut ep, &[], 4, &mut out), Err(CommError::Decode));
    assert_eq!(out, vec![7, 7]);
}
