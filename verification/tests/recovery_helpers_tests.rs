//! The functions that turn what storage read back into log entries, acceptor
//! records, acceptor states and a restored node.

use smr::multipaxos::storage::{
    instance_ids, AcceptedValue, AcceptorState, CommandLog, PaxosStorage,
};
use smr::multipaxos::MultiPaxosNode;
use smr::storage::{InMemoryStorage, Storage};
use smr::{CommandTrait, SerializableCommand, SmrConfig, StateMachine};

fn entry(key: &str, value: &str) -> (Vec<u8>, Vec<u8>) {
    (key.as_bytes().to_vec(), value.as_bytes().to_vec())
}

#[test]
fn replay_entries_reads_ids_and_commands() {
    let entries = vec![entry("log/00000000000000000001", "7"), entry("log/00000000000000000004", "9")];
    let r = CommandLog::<u64>::replay_entries(&entries).unwrap();
    assert_eq!(r, vec![(1, 7), (4, 9)]);
}

#[test]
fn replay_entries_rejects_bad_key_or_command() {
    let bad_key = vec![entry("log/x", "7")];
    assert!(CommandLog::<u64>::replay_entries(&bad_key).is_err());
    let bad_command = vec![entry("log/00000000000000000001", "seven")];
    assert!(CommandLog::<u64>::replay_entries(&bad_command).is_err());
    let none: Vec<(Vec<u8>, Vec<u8>)> = Vec::new();
    assert_eq!(CommandLog::<u64>::replay_entries(&none).unwrap(), Vec::new());
}

#[test]
fn instance_ids_are_distinct_and_increasing() {
    let entries = vec![
        entry("acceptor/10/accepted", "x"),
        entry("acceptor/10/ballot", "1"),
        entry("acceptor/2/ballot", "1"),
        entry("acceptor/junk", "1"),
    ];
    assert_eq!(instance_ids(&entries), vec![2, 10]);
}

#[test]
fn ballot_from_value_reads_digits() {
    assert_eq!(PaxosStorage::<u64>::ballot_from_value(b"42").unwrap(), 42);
    assert!(PaxosStorage::<u64>::ballot_from_value(b"forty").is_err());
}

#[test]
fn record_with_accepted_parses_the_proposal() {
    let r = PaxosStorage::<u64>::record_with_accepted(5, Some(br#"{"ballot":3,"command":17}"#)).unwrap();
    assert_eq!(r, Some((5, Some((3, b"17".to_vec())))));
    let none = PaxosStorage::<u64>::record_with_accepted(5, None).unwrap();
    assert_eq!(none, Some((5, None)));
    assert!(PaxosStorage::<u64>::record_with_accepted(5, Some(b"no newline")).is_err());
}

#[test]
fn state_from_record_decodes_the_command() {
    let st = PaxosStorage::<u64>::state_from_record(Some((5, Some((3, b"17".to_vec())))))
        .unwrap()
        .unwrap();
    assert_eq!(st.max_ballot, 5);
    let acc: AcceptedValue<u64> = st.max_accepted.unwrap();
    assert_eq!((acc.ballot, acc.command), (3, 17));
    assert!(PaxosStorage::<u64>::state_from_record(None).unwrap().is_none());
    assert!(PaxosStorage::<u64>::state_from_record(Some((5, Some((3, b"x".to_vec()))))).is_err());
}

#[derive(Clone, Eq, PartialEq, Debug, Hash)]
struct Num(u64);

impl CommandTrait for Num {
    fn clone_command(&self) -> Self {
        self.clone()
    }
    fn same_command(&self, other: &Self) -> bool {
        self == other
    }
}

impl SerializableCommand for Num {
    fn encode_command(&self) -> Vec<u8> {
        self.0.to_string().into_bytes()
    }
    fn decode_command(bytes: &[u8]) -> Option<Self> {
        std::str::from_utf8(bytes).ok()?.parse().ok().map(Num)
    }
}

struct Sink;

impl StateMachine for Sink {
    type Command = Num;
    type Output = ();

    fn apply(&mut self, _command: Num) -> smr::Result<()> {
        Ok(())
    }
}

fn config() -> SmrConfig {
    SmrConfig::new(0, None, vec![(1, "127.0.0.1:9101".to_string()), (2, "127.0.0.1:9102".to_string())]).unwrap()
}

#[test]
fn init_by_default_succeeds() {
    let mut sm = Sink;
    assert!(sm.init().is_ok());
}

#[test]
fn from_acceptor_states_restores_each_instance() {
    let storage = PaxosStorage::<Num>::new(Box::new(InMemoryStorage::new()));
    let states = vec![
        (1u64, AcceptorState { max_ballot: 4, max_accepted: None }),
        (3u64, AcceptorState { max_ballot: 6, max_accepted: Some(AcceptedValue { ballot: 6, command: Num(9) }) }),
    ];
    let node = MultiPaxosNode::<Sink>::from_acceptor_states(config(), storage, &states);
    assert!(node.is_ok());
}

#[test]
fn from_acceptor_states_rejects_the_last_instance() {
    let storage = PaxosStorage::<Num>::new(Box::new(InMemoryStorage::new()));
    let states = vec![(u64::MAX, AcceptorState { max_ballot: 1, max_accepted: None })];
    assert!(MultiPaxosNode::<Sink>::from_acceptor_states(config(), storage, &states).is_err());
}

#[test]
fn load_acceptor_record_through_a_store() {
    let mut backend = InMemoryStorage::new();
    backend.put(b"acceptor/2/ballot", b"8").unwrap();
    backend.put(b"acceptor/2/accepted", br#"{"ballot":8,"command":5}"#).unwrap();
    let storage = PaxosStorage::<u64>::new(Box::new(backend));
    assert_eq!(storage.load_acceptor_record(2).unwrap(), Some((8, Some((8, b"5".to_vec())))));
    assert_eq!(storage.load_acceptor_record(3).unwrap(), None);
}

#[test]
fn accepted_record_reads_what_serde_json_writes() {
    let mut object = serde_json::Map::new();
    object.insert("ballot".to_string(), serde_json::Value::from(8u32));
    object.insert("command".to_string(), serde_json::Value::from("hi"));
    let bytes = serde_json::to_vec(&serde_json::Value::Object(object)).unwrap();
    let r = PaxosStorage::<String>::record_with_accepted(8, Some(bytes.as_slice())).unwrap();
    assert_eq!(r, Some((8, Some((8, br#""hi""#.to_vec())))));
    let st = PaxosStorage::<String>::state_from_record(r).unwrap().unwrap();
    assert_eq!(st.max_accepted.unwrap().command, "hi".to_string());
}

#[test]
fn saved_string_command_loads_back() {
    let mut ps = PaxosStorage::<String>::new(Box::new(InMemoryStorage::new()));
    assert!(ps.load_acceptor_state(1).unwrap().is_none());
    ps.save_accept(1, 3, &"hello, world".to_string()).unwrap();
    let st = ps.load_acceptor_state(1).unwrap().unwrap();
    assert_eq!(st.max_ballot, 3);
    let acc = st.max_accepted.unwrap();
    assert_eq!((acc.ballot, acc.command), (3, "hello, world".to_string()));
}
