use zmq_collectives::bootstrap::{bootstrap_plan, BootStep};
use zmq_collectives::codec::{decode_items, decode_value, encode_items, encode_value, CommError};
use zmq_collectives::combine::{fold_slice, ReduceOp};
use zmq_collectives::config::{parse_decimal, ConfigError, Params};
use zmq_collectives::fibonacci;
use zmq_collectives::lifecycle::{Lifecycle, LifecycleError, Phase};
use zmq_collectives::topology::{depth, fanin_step, fanout_step, pow2_exec, Action};
use zmq_collectives::wire::identity_of;

fn addrs(n: usize) -> Vec<String> {
    (0..n).map(|i| format!("10.0.0.{}:7000", i)).collect()
}

#[test]
fn value_encoding_is_little_endian() {
    assert_eq!(encode_value(0x0102), vec![2, 1, 0, 0, 0, 0, 0, 0]);
    assert_eq!(decode_value(&encode_value(123456789)), Ok(123456789));
    assert_eq!(decode_value(&[5, 0, 0, 0, 0, 0, 0, 0, 99]), Ok(5));
}

#[test]
fn short_value_payload_does_not_decode() {
    assert_eq!(decode_value(&[1, 2, 3]), Err(CommError::Decode));
    assert_eq!(decode_value(&[]), Err(CommError::Decode));
}

#[test]
fn buffer_encoding_has_length_prefix() {
    let b = encode_items(&[1, 2]);
    assert_eq!(b.len(), 24);
    assert_eq!(&b[..8], &[2, 0, 0, 0, 0, 0, 0, 0]);
    assert_eq!(&b[8..16], &[1, 0, 0, 0, 0, 0, 0, 0]);
    assert_eq!(decode_items(&b), Ok(vec![1, 2]));
    assert_eq!(decode_items(&encode_items(&[])), Ok(vec![]));
}

#[test]
fn truncated_buffer_does_not_decode() {
    let b = encode_items(&[1, 2]);
    assert_eq!(decode_items(&b[..20]), Err(CommError::Decode));
    assert_eq!(decode_items(&b[..4]), Err(CommError::Decode));
}

#[test]
fn params_checks_the_group() {
    assert!(Params::new(2, 1, addrs(2)).is_ok());
    assert_eq!(Params::new(0, 0, vec![]).err(), Some(ConfigError::NoAddresses));
    assert_eq!(Params::new(3, 0, addrs(2)).err(), Some(ConfigError::CountMismatch));
    assert_eq!(Params::new(2, 2, addrs(2)).err(), Some(ConfigError::RankOutOfRange));
}

#[test]
fn params_parse_reads_decimal_numbers() {
    let p = Params::parse(b"3", b"2", addrs(3)).unwrap();
    assert_eq!((p.nranks, p.rank), (3, 2));
    assert_eq!(Params::parse(b"x", b"0", addrs(1)).err(), Some(ConfigError::Unparsable));
    assert_eq!(Params::parse(b"1", b"", addrs(1)).err(), Some(ConfigError::Unparsable));
    assert_eq!(Params::parse(b"3", b"0", addrs(2)).err(), Some(ConfigError::CountMismatch));
    assert_eq!(Params::parse(b"2", b"2", addrs(2)).err(), Some(ConfigError::RankOutOfRange));
    assert_eq!(Params::parse(b"0", b"0", vec![]).err(), Some(ConfigError::NoAddresses));
}

#[test]
fn decimal_parsing() {
    assert_eq!(parse_decimal(b"0"), Some(0));
    assert_eq!(parse_decimal(b"4096"), Some(4096));
    assert_eq!(parse_decimal(b"18446744073709551615"), Some(usize::MAX));
    assert_eq!(parse_decimal(b"18446744073709551616"), None);
    assert_eq!(parse_decimal(b"-1"), None);
    assert_eq!(parse_decimal(b""), None);
}

#[test]
fn identity_is_decimal_rank() {
    assert_eq!(identity_of(0), b"0".to_vec());
    assert_eq!(identity_of(12), b"12".to_vec());
    assert_eq!(identity_of(305), b"305".to_vec());
}

#[test]
fn bootstrap_plan_middle_rank() {
    assert_eq!(
        bootstrap_plan(3, 1),
        vec![
            BootStep::DrainInbound,
            BootStep::Connect(0),
            BootStep::DrainOutbound,
            BootStep::Connect(2),
            BootStep::DrainOutbound,
            BootStep::DrainInbound,
        ]
    );
    assert_eq!(bootstrap_plan(1, 0), vec![]);
}

#[test]
fn depth_is_ceiling_log2() {
    assert_eq!(depth(1), 0);
    assert_eq!(depth(2), 1);
    assert_eq!(depth(3), 2);
    assert_eq!(depth(4), 2);
    assert_eq!(depth(5), 3);
    assert_eq!(depth(usize::MAX), 64);
    assert_eq!(pow2_exec(10), 1024);
}

#[test]
fn tree_steps_four_ranks() {
    assert_eq!(fanout_step(4, 0, 2, 0), Action::Send(2));
    assert_eq!(fanout_step(4, 2, 2, 0), Action::Recv(0));
    assert_eq!(fanout_step(4, 1, 2, 0), Action::Idle);
    assert_eq!(fanout_step(4, 2, 2, 1), Action::Send(3));
    assert_eq!(fanout_step(3, 2, 2, 1), Action::Idle);
    assert_eq!(fanin_step(4, 1, 2, 0), Action::Send(0));
    assert_eq!(fanin_step(4, 0, 2, 1), Action::Recv(2));
    assert_eq!(fanin_step(4, 1, 2, 1), Action::Idle);
    assert_eq!(fanin_step(3, 2, 2, 0), Action::Idle);
}

#[test]
fn combiners_and_fold() {
    assert_eq!(ReduceOp::Sum.combine(2, 3), 5);
    assert_eq!(ReduceOp::Sum.combine(u64::MAX, 3), 2);
    assert_eq!(ReduceOp::Min.combine(2, 3), 2);
    assert_eq!(ReduceOp::Max.combine(2, 3), 3);
    assert_eq!(ReduceOp::Min.identity(), u64::MAX);
    assert_eq!(fold_slice(ReduceOp::Sum, 0, &[1, 1, 1, 1]), 4);
    assert_eq!(fold_slice(ReduceOp::Max, 0, &[]), 0);
}

#[test]
fn lifecycle_finalize_twice() {
    let mut l = Lifecycle::new();
    assert_eq!(l.begin(), Ok(()));
    assert_eq!(l.begin(), Err(LifecycleError::NotCreated));
    assert!(l.finalize());
    assert!(!l.finalize());
    assert_eq!(l.phase, Phase::Finalized);
}

#[test]
fn fibonacci_values() {
    assert_eq!(fibonacci(0), 1);
    assert_eq!(fibonacci(1), 1);
    assert_eq!(fibonacci(10), 89);
}
