use smr::channel::{connection_targets, decode_frame_length, encode_frame, TcpMessage};
use smr::{AlgorithmConfig, CliArgsError, SmrConfig};

fn args(v: &[&str]) -> Vec<String> {
    v.iter().map(|s| s.to_string()).collect()
}

#[test]
fn cli_args_give_the_cluster() {
    let c = SmrConfig::parse_cli_args(&args(&["prog", "1", "6001,6002,6003"])).unwrap();
    assert_eq!(c.node_id, 1);
    assert_eq!(c.total_nodes(), 3);
    assert_eq!(c.bind_address, "127.0.0.1:6002");
    assert_eq!(
        c.other_nodes,
        vec![(0, "127.0.0.1:6001".to_string()), (2, "127.0.0.1:6003".to_string())]
    );
}

#[test]
fn cli_args_errors() {
    assert_eq!(SmrConfig::parse_cli_args(&args(&["prog", "1"])).unwrap_err(), CliArgsError::Usage);
    assert_eq!(
        SmrConfig::parse_cli_args(&args(&["prog", "x", "1,2,3"])).unwrap_err(),
        CliArgsError::InvalidNodeId
    );
    assert_eq!(
        SmrConfig::parse_cli_args(&args(&["prog", "70000", "1,2,3"])).unwrap_err(),
        CliArgsError::InvalidNodeId
    );
    assert_eq!(
        SmrConfig::parse_cli_args(&args(&["prog", "0", "1,,3"])).unwrap_err(),
        CliArgsError::InvalidPort
    );
    assert_eq!(
        SmrConfig::parse_cli_args(&args(&["prog", "0", "1,2,65536"])).unwrap_err(),
        CliArgsError::InvalidPort
    );
    assert_eq!(
        SmrConfig::parse_cli_args(&args(&["prog", "0", "1,2"])).unwrap_err(),
        CliArgsError::TooFewPorts(2)
    );
    assert_eq!(
        SmrConfig::parse_cli_args(&args(&["prog", "3", "1,2,3"])).unwrap_err(),
        CliArgsError::NodeIdOutOfRange { node_id: 3, num_nodes: 3 }
    );
    let c = SmrConfig::parse_cli_args(&args(&["prog", "+0", "+7,8,9,10"])).unwrap();
    assert_eq!(c.node_id, 0);
    assert_eq!(c.total_nodes(), 4);
    assert_eq!(c.bind_address, "127.0.0.1:7");
}

#[test]
fn config_new_defaults_bind_address() {
    let c = SmrConfig::new(4, None, vec![(1, "a".to_string())]).unwrap();
    assert_eq!(c.bind_address, "127.0.0.1");
    assert_eq!(c.node_id(), 4);
    assert_eq!(c.total_nodes(), 2);
    let c = SmrConfig::new(4, Some("10.0.0.1:80".to_string()), vec![]).unwrap();
    assert_eq!(c.bind_address, "10.0.0.1:80");
    assert_eq!(c.total_nodes(), 1);
    assert_eq!(AlgorithmConfig::default(), AlgorithmConfig::Paxos);
}

#[test]
fn frames_carry_their_length() {
    let payload: Vec<u8> = (0..300u32).map(|i| (i % 256) as u8).collect();
    let frame = encode_frame(&payload);
    assert_eq!(&frame[..4], &[44, 1, 0, 0]);
    assert_eq!(&frame[4..], &payload[..]);
    assert_eq!(decode_frame_length(&frame[..4]), 300);
    assert_eq!(decode_frame_length(&[1, 2, 3, 4]), 0x04030201);
    assert_eq!(encode_frame(&vec![]), vec![0, 0, 0, 0]);
    let m = TcpMessage { sender_id: 3, payload: 5u8 };
    assert_eq!(m.sender_id, 3);
}

#[test]
fn nodes_dial_higher_identifiers_and_the_highest_wraps_around() {
    assert_eq!(connection_targets(0, &vec![1, 2]), vec![1, 2]);
    assert_eq!(connection_targets(1, &vec![0, 2]), vec![2]);
    assert_eq!(connection_targets(2, &vec![1, 0]), vec![0]);
    assert_eq!(connection_targets(5, &vec![]), Vec::<u32>::new());
}
