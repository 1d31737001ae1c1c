use raft_kv::peers::{parse_peers, parse_u64, split_fields, PeerListError};
use raft_kv::raft::{Command, LogEntry, NodeState, OutboundMsg, RaftNode, RequestVoteArgs};
use raft_kv::rpc::{frame_body_len, frame_header, to_wire, FrameError, RpcMessage, MAX_FRAME_LEN};
use raft_kv::store::KvStore;
use raft_kv::wal::{replay_record, wal_records, DiskRecord};

fn entry(term: u64, key: &str, value: &str) -> LogEntry {
    LogEntry { term, command: Command::Put { key: key.to_string(), value: value.to_string() } }
}

#[test]
fn test_split_fields_like_str_split() {
    assert_eq!(split_fields("a,b,,c", ','), vec!["a", "b", "", "c"]);
    assert_eq!(split_fields("", ','), vec![""]);
    assert_eq!(split_fields(",", ','), vec!["", ""]);
    assert_eq!(split_fields("héllo=wörld", '='), vec!["héllo", "wörld"]);
}

#[test]
fn test_parse_u64_like_std() {
    assert_eq!(parse_u64("0"), Some(0));
    assert_eq!(parse_u64("42"), Some(42));
    assert_eq!(parse_u64("+7"), Some(7));
    assert_eq!(parse_u64("18446744073709551615"), Some(u64::MAX));
    assert_eq!(parse_u64("18446744073709551616"), None);
    assert_eq!(parse_u64(""), None);
    assert_eq!(parse_u64("+"), None);
    assert_eq!(parse_u64("-1"), None);
    assert_eq!(parse_u64("1x"), None);
    assert_eq!(parse_u64(" 1"), None);
    for s in ["0", "12", "+3", "99999999999999999999", "", "a", "4-"] {
        assert_eq!(parse_u64(s), s.parse::<u64>().ok(), "{}", s);
    }
}

#[test]
fn test_parse_peers_reads_pairs_in_order() {
    let peers = parse_peers("1=127.0.0.1:8002,2=127.0.0.1:8003").unwrap();
    assert_eq!(
        peers,
        vec![(1, "127.0.0.1:8002".to_string()), (2, "127.0.0.1:8003".to_string())]
    );
}

#[test]
fn test_parse_peers_empty_and_skipped_fields() {
    assert_eq!(parse_peers("").unwrap(), vec![]);
    // Fields without exactly one '=' are skipped.
    assert_eq!(parse_peers("junk,3=a:1,4=b=c").unwrap(), vec![(3, "a:1".to_string())]);
}

#[test]
fn test_parse_peers_bad_id() {
    assert_eq!(parse_peers("x=127.0.0.1:1"), Err(PeerListError::InvalidId));
    assert_eq!(parse_peers("1=a:1,-2=b:2"), Err(PeerListError::InvalidId));
}

#[test]
fn test_frame_header_is_big_endian() {
    assert_eq!(frame_header(0), [0, 0, 0, 0]);
    assert_eq!(frame_header(258), [0, 0, 1, 2]);
    assert_eq!(frame_header(0x01020304), [1, 2, 3, 4]);
}

#[test]
fn test_frame_header_round_trip() {
    for n in [0usize, 1, 255, 256, 65536, 1_000_000, MAX_FRAME_LEN] {
        assert_eq!(frame_body_len(frame_header(n)), Ok(n));
    }
}

#[test]
fn test_frame_too_large_is_refused() {
    assert_eq!(frame_body_len(frame_header(MAX_FRAME_LEN + 1)), Err(FrameError::TooLarge));
    assert_eq!(frame_body_len([0xff, 0xff, 0xff, 0xff]), Err(FrameError::TooLarge));
    assert_eq!(frame_body_len([4, 0, 0, 0]), Ok(MAX_FRAME_LEN));
}

#[test]
fn test_to_wire_addresses_envelope() {
    let args = RequestVoteArgs { term: 3, candidate_id: 0, last_log_index: 5, last_log_term: 2 };
    let (to, msg) = to_wire(0, OutboundMsg::RequestVote { to: 4, args });
    assert_eq!(to, 4);
    match msg {
        RpcMessage::RequestVote(env) => {
            assert_eq!((env.from, env.to), (0, 4));
            assert_eq!(env.payload.term, 3);
            assert_eq!(env.payload.last_log_index, 5);
        }
        _ => panic!("expected RequestVote"),
    }
}

/// Replay `records` on a fresh node and store.
fn recover(id: u64, records: Vec<DiskRecord>) -> (RaftNode, KvStore) {
    let mut node = RaftNode::new(id, vec![]);
    let mut store = KvStore::new();
    for r in records {
        replay_record(&mut node, &mut store, r);
    }
    (node, store)
}

#[test]
fn test_wal_round_trip_restores_term_vote_and_log() {
    let fresh = RaftNode::new(0, vec![1]);
    let before = fresh.persistent_state();
    let mut node = RaftNode::new(0, vec![1]);
    node.current_term = 3;
    node.voted_for = Some(1);
    node.log.push(entry(2, "a", "1"));
    node.log.push(entry(3, "b", "2"));
    let store = KvStore::new();
    let records = wal_records(&before, &node, &store);
    assert_eq!(records.len(), 3);
    let (recovered, _) = recover(0, records);
    assert_eq!(recovered.current_term, 3);
    assert_eq!(recovered.voted_for, Some(1));
    assert_eq!(recovered.log, node.log);
}

#[test]
fn test_wal_records_truncate_conflicting_suffix() {
    let mut old_node = RaftNode::new(0, vec![1]);
    old_node.log.push(entry(1, "a", "1"));
    old_node.log.push(entry(1, "b", "2"));
    let before = old_node.persistent_state();
    let mut node = RaftNode::new(0, vec![1]);
    node.log.push(entry(1, "a", "1"));
    node.log.push(entry(2, "c", "3"));
    let records = wal_records(&before, &node, &KvStore::new());
    assert_eq!(records.len(), 2);
    assert!(matches!(records[0], DiskRecord::Truncate { physical_index: 2 }));
    let mut rebuilt = old_node;
    let mut store = KvStore::new();
    for r in records {
        replay_record(&mut rebuilt, &mut store, r);
    }
    assert_eq!(rebuilt.log, node.log);
}

#[test]
fn test_wal_nothing_changed_writes_nothing() {
    let node = RaftNode::new(0, vec![1]);
    let before = node.persistent_state();
    assert!(wal_records(&before, &node, &KvStore::new()).is_empty());
}

#[test]
fn test_wal_snapshot_restores_store() {
    let fresh = RaftNode::new(0, vec![]);
    let before = fresh.persistent_state();
    let mut node = RaftNode::new(0, vec![]);
    node.start_election();
    assert_eq!(node.state, NodeState::Leader);
    node.propose(Command::Put { key: "k".to_string(), value: "v".to_string() }).unwrap();
    let mut store = KvStore::new();
    node.apply_committed(&mut store);
    node.compact_log(1);
    assert_eq!(node.last_included_index, 1);
    let records = wal_records(&before, &node, &store);
    let (recovered, recovered_store) = recover(0, records);
    assert_eq!(recovered.current_term, 1);
    assert_eq!(recovered.voted_for, Some(0));
    assert_eq!(recovered.last_included_index, 1);
    assert_eq!(recovered.last_included_term, 1);
    assert_eq!(recovered.commit_index, 1);
    assert_eq!(recovered.log.len(), 1);
    assert_eq!(recovered_store.get("k"), Some(&"v".to_string()));
}

#[test]
fn test_wal_snapshot_keeps_entries_after_snapshot_point() {
    let fresh = RaftNode::new(0, vec![]);
    let before = fresh.persistent_state();
    let mut node = RaftNode::new(0, vec![]);
    node.start_election();
    for k in ["a", "b", "c"] {
        node.propose(Command::Put { key: k.to_string(), value: "v".to_string() }).unwrap();
    }
    let mut store = KvStore::new();
    node.apply_committed(&mut store);
    node.compact_log(1);
    assert_eq!(node.log.len(), 3);
    let records = wal_records(&before, &node, &store);
    // term and vote, the snapshot, then the two entries kept after it
    assert_eq!(records.len(), 4);
    let (recovered, recovered_store) = recover(0, records);
    assert_eq!(recovered.last_included_index, 1);
    assert_eq!(recovered.log, node.log);
    assert_eq!(recovered_store.len(), 3);
}
