use smr::multipaxos::storage::{
    accepted_key, instance_id_of_key, log_id_of_key, log_key, promise_key, CommandLog, PaxosStorage,
};
use smr::storage::{InMemoryStorage, Storage};
use std::sync::{Arc, Mutex};

struct SharedStorage(Arc<Mutex<InMemoryStorage>>);

impl Storage for SharedStorage {
    fn put(&mut self, key: &[u8], value: &[u8]) -> smr::Result<()> {
        self.0.lock().unwrap().put(key, value)
    }
    fn get(&self, key: &[u8]) -> smr::Result<Option<Vec<u8>>> {
        self.0.lock().unwrap().get(key)
    }
    fn delete(&mut self, key: &[u8]) -> smr::Result<()> {
        self.0.lock().unwrap().delete(key)
    }
    fn scan_prefix(&self, prefix: &[u8]) -> smr::Result<Vec<(Vec<u8>, Vec<u8>)>> {
        self.0.lock().unwrap().scan_prefix(prefix)
    }
}

#[test]
fn test_put_and_get() {
    let mut s = InMemoryStorage::new();
    s.put(b"key1", b"val1").unwrap();
    assert_eq!(s.get(b"key1").unwrap(), Some(b"val1".to_vec()));
    assert_eq!(s.get(b"key2").unwrap(), None);
}

#[test]
fn test_put_overwrites() {
    let mut s = InMemoryStorage::new();
    s.put(b"k", b"v1").unwrap();
    s.put(b"k", b"v2").unwrap();
    assert_eq!(s.get(b"k").unwrap(), Some(b"v2".to_vec()));
}

#[test]
fn test_delete() {
    let mut s = InMemoryStorage::new();
    s.put(b"k", b"v").unwrap();
    s.delete(b"k").unwrap();
    assert_eq!(s.get(b"k").unwrap(), None);
}

#[test]
fn test_delete_nonexistent() {
    let mut s = InMemoryStorage::new();
    s.delete(b"nope").unwrap(); // should not error
}

#[test]
fn test_scan_prefix() {
    let mut s = InMemoryStorage::new();
    s.put(b"acceptor/0/ballot", b"1").unwrap();
    s.put(b"acceptor/1/ballot", b"2").unwrap();
    s.put(b"acceptor/1/accepted", b"3").unwrap();
    s.put(b"log/0", b"cmd").unwrap();

    let results = s.scan_prefix(b"acceptor/1/").unwrap();
    assert_eq!(results.len(), 2);
    assert_eq!(results[0].0, b"acceptor/1/accepted");
    assert_eq!(results[1].0, b"acceptor/1/ballot");

    let all_acceptor = s.scan_prefix(b"acceptor/").unwrap();
    assert_eq!(all_acceptor.len(), 3);

    let empty = s.scan_prefix(b"nonexistent/").unwrap();
    assert!(empty.is_empty());
}

#[test]
fn scan_yields_increasing_keys_with_values() {
    let mut s = InMemoryStorage::new();
    s.put(b"b", b"2").unwrap();
    s.put(b"a", b"1").unwrap();
    s.put(b"ab", b"3").unwrap();
    s.put(b"", b"0").unwrap();
    let all = s.scan_prefix(b"").unwrap();
    let keys: Vec<Vec<u8>> = all.iter().map(|(k, _)| k.clone()).collect();
    assert_eq!(keys, vec![b"".to_vec(), b"a".to_vec(), b"ab".to_vec(), b"b".to_vec()]);
    assert_eq!(all[2].1, b"3".to_vec());
    let a = s.scan_prefix(b"a").unwrap();
    assert_eq!(a.len(), 2);
}

#[test]
fn test_paxos_storage_save_load_promise() {
    let s = InMemoryStorage::new();
    let mut ps: PaxosStorage<u32> = PaxosStorage::new(Box::new(s));
    assert!(ps.load_acceptor_state(0).unwrap().is_none());

    ps.save_promise(0, 5).unwrap();
    let state = ps.load_acceptor_state(0).unwrap().unwrap();
    assert_eq!(state.max_ballot, 5);
    assert!(state.max_accepted.is_none());
}

#[test]
fn test_paxos_storage_save_load_accept() {
    let s = InMemoryStorage::new();
    let mut ps: PaxosStorage<String> = PaxosStorage::new(Box::new(s));

    ps.save_accept(1, 3, &"hello".to_string()).unwrap();
    let state = ps.load_acceptor_state(1).unwrap().unwrap();
    assert_eq!(state.max_ballot, 3);
    let acc = state.max_accepted.unwrap();
    assert_eq!(acc.ballot, 3);
    assert_eq!(acc.command, "hello");
}

#[test]
fn test_paxos_storage_load_all() {
    let s = InMemoryStorage::new();
    let mut ps: PaxosStorage<u32> = PaxosStorage::new(Box::new(s));

    ps.save_promise(0, 1).unwrap();
    ps.save_accept(2, 5, &42).unwrap();

    let all = ps.load_all_acceptor_states().unwrap();
    assert_eq!(all.len(), 2);
    // Sorted by instance_id
    assert_eq!(all[0].0, 0);
    assert_eq!(all[1].0, 2);
}

#[test]
fn test_command_log_append_and_replay() {
    let s = InMemoryStorage::new();
    let mut log: CommandLog<String> = CommandLog::new(Box::new(s));

    assert_eq!(log.last_applied().unwrap(), 0);
    assert!(log.replay().unwrap().is_empty());

    log.append(0, &"cmd_a".to_string()).unwrap();
    log.append(1, &"cmd_b".to_string()).unwrap();
    log.set_last_applied(2).unwrap();

    assert_eq!(log.last_applied().unwrap(), 2);
    let entries = log.replay().unwrap();
    assert_eq!(entries.len(), 2);
    assert_eq!(entries[0], (0, "cmd_a".to_string()));
    assert_eq!(entries[1], (1, "cmd_b".to_string()));
}

#[test]
fn test_recovery_round_trip() {
    // Shared storage simulating persistent disk
    let storage = Arc::new(Mutex::new(InMemoryStorage::new()));

    // Phase 1: "First run" — write some state
    {
        let s1: Box<dyn Storage> = Box::new(SharedStorage(Arc::clone(&storage)));
        let s2: Box<dyn Storage> = Box::new(SharedStorage(Arc::clone(&storage)));

        let mut ps: PaxosStorage<u32> = PaxosStorage::new(s1);
        ps.save_promise(0, 5).unwrap();
        ps.save_accept(1, 10, &42).unwrap();

        let mut cl: CommandLog<u32> = CommandLog::new(s2);
        cl.append(0, &100).unwrap();
        cl.append(1, &200).unwrap();
        cl.set_last_applied(2).unwrap();
    }
    // PaxosStorage and CommandLog dropped — simulates crash

    // Phase 2: "Recovery" — new instances, same backing storage
    {
        let s1: Box<dyn Storage> = Box::new(SharedStorage(Arc::clone(&storage)));
        let s2: Box<dyn Storage> = Box::new(SharedStorage(Arc::clone(&storage)));

        let ps: PaxosStorage<u32> = PaxosStorage::new(s1);
        let all = ps.load_all_acceptor_states().unwrap();
        assert_eq!(all.len(), 2);
        assert_eq!(all[0].0, 0);
        assert_eq!(all[0].1.max_ballot, 5);
        assert!(all[0].1.max_accepted.is_none());
        assert_eq!(all[1].0, 1);
        assert_eq!(all[1].1.max_ballot, 10);
        assert_eq!(all[1].1.max_accepted.as_ref().unwrap().command, 42);

        let cl: CommandLog<u32> = CommandLog::new(s2);
        assert_eq!(cl.last_applied().unwrap(), 2);
        let entries = cl.replay().unwrap();
        assert_eq!(entries, vec![(0, 100), (1, 200)]);
    }
}

#[test]
fn storage_keys_and_values_have_their_documented_form() {
    let storage = Arc::new(Mutex::new(InMemoryStorage::new()));
    let mut ps: PaxosStorage<u32> = PaxosStorage::new(Box::new(SharedStorage(Arc::clone(&storage))));
    ps.save_accept(12, 7, &42).unwrap();
    let mut cl: CommandLog<u32> = CommandLog::new(Box::new(SharedStorage(Arc::clone(&storage))));
    cl.append(3, &99).unwrap();
    cl.set_last_applied(4).unwrap();
    let s = storage.lock().unwrap();
    assert_eq!(s.get(b"acceptor/12/ballot").unwrap(), Some(b"7".to_vec()));
    assert_eq!(s.get(b"acceptor/12/accepted").unwrap(), Some(br#"{"ballot":7,"command":42}"#.to_vec()));
    assert_eq!(s.get(b"log/00000000000000000003").unwrap(), Some(b"99".to_vec()));
    assert_eq!(s.get(b"meta/last_applied").unwrap(), Some(b"4".to_vec()));
}

#[test]
fn replay_orders_by_instance_and_rejects_bad_keys() {
    let storage = Arc::new(Mutex::new(InMemoryStorage::new()));
    let mut cl: CommandLog<u64> = CommandLog::new(Box::new(SharedStorage(Arc::clone(&storage))));
    cl.append(10, &1).unwrap();
    cl.append(2, &2).unwrap();
    cl.append(100, &3).unwrap();
    assert_eq!(cl.replay().unwrap(), vec![(2, 2), (10, 1), (100, 3)]);
    storage.lock().unwrap().put(b"log/x", b"1").unwrap();
    assert!(cl.replay().is_err());
}

#[test]
fn undecodable_stored_values_are_errors() {
    let storage = Arc::new(Mutex::new(InMemoryStorage::new()));
    let ps: PaxosStorage<u32> = PaxosStorage::new(Box::new(SharedStorage(Arc::clone(&storage))));
    storage.lock().unwrap().put(b"acceptor/0/ballot", b"not json").unwrap();
    assert!(ps.load_acceptor_state(0).is_err());
    storage.lock().unwrap().put(b"acceptor/1/ballot", b"3").unwrap();
    storage.lock().unwrap().put(b"acceptor/1/accepted", b"no newline").unwrap();
    assert!(ps.load_acceptor_state(1).is_err());
    let cl: CommandLog<u32> = CommandLog::new(Box::new(SharedStorage(Arc::clone(&storage))));
    storage.lock().unwrap().put(b"meta/last_applied", b"-1").unwrap();
    assert!(cl.last_applied().is_err());
}

#[test]
fn acceptor_keys_name_their_instance() {
    assert_eq!(promise_key(17), b"acceptor/17/ballot".to_vec());
    assert_eq!(accepted_key(17), b"acceptor/17/accepted".to_vec());
    assert_eq!(log_key(17), b"log/00000000000000000017".to_vec());
    assert_eq!(instance_id_of_key(b"acceptor/5/ballot"), Some(5));
    assert_eq!(instance_id_of_key(b"acceptor/5"), Some(5));
    assert_eq!(instance_id_of_key(b"acceptor"), None);
    assert_eq!(instance_id_of_key(b"acceptor/x/ballot"), None);
    // a key that is not valid UTF-8 names no instance
    assert_eq!(instance_id_of_key(b"acceptor/5/\xff"), None);
    assert_eq!(log_id_of_key(b"log/00000000000000000017"), Some(17));
    assert_eq!(log_id_of_key(b"log/+3"), Some(3));
    assert_eq!(log_id_of_key(b"lag/3"), None);
}
