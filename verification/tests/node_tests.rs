use raft_kv::client::{RouteStep, Router, REDIRECT_WAIT_MS, RETRY_WAIT_MS};
use raft_kv::node::{
    can_handle, can_settle, can_tick, fate_reply, handle_message, on_tick, settle, write_fate,
    PendingWrite, TickAction, Timers, WriteFate, COMPACTION_THRESHOLD, ELECTION_TIMEOUT_MAX_MS, ELECTION_TIMEOUT_MIN_MS,
};
use raft_kv::raft::{
    AppendEntriesArgs, AppendEntriesReply, Command, LogEntry, NodeState, OutboundMsg, RaftNode,
    RequestVoteArgs, RequestVoteReply,
};
use raft_kv::rpc::{ClientReply, ClientRequest, Envelope, RpcMessage};
use raft_kv::store::KvStore;

fn put(key: &str, value: &str) -> RpcMessage {
    RpcMessage::ClientRequest(ClientRequest::Put { key: key.to_string(), value: value.to_string() })
}

fn single_leader() -> RaftNode {
    let mut node = RaftNode::new(0, vec![]);
    node.start_election();
    assert_eq!(node.state, NodeState::Leader);
    node
}

#[test]
fn test_request_vote_is_answered_to_the_candidate() {
    let mut node = RaftNode::new(1, vec![0, 2]);
    let store = KvStore::new();
    let msg = RpcMessage::RequestVote(Envelope {
        from: 0,
        to: 1,
        payload: RequestVoteArgs { term: 1, candidate_id: 0, last_log_index: 0, last_log_term: 0 },
    });
    assert!(can_handle(&node, &msg));
    let out = handle_message(&mut node, &store, msg);
    assert!(out.reset_election);
    assert!(out.outbound.is_empty());
    assert!(out.pending.is_none());
    match out.reply {
        Some(RpcMessage::RequestVoteReply(env)) => {
            assert_eq!(env.from, 1);
            assert_eq!(env.to, 0);
            assert!(env.payload.vote_granted);
            assert_eq!(env.payload.term, 1);
        }
        _ => panic!("expected a vote reply"),
    }
    assert_eq!(node.voted_for, Some(0));
}

#[test]
fn test_append_entries_resets_election_and_replies() {
    let mut node = RaftNode::new(1, vec![0]);
    let store = KvStore::new();
    let msg = RpcMessage::AppendEntries(Envelope {
        from: 0,
        to: 1,
        payload: AppendEntriesArgs {
            term: 2,
            leader_id: 0,
            prev_log_index: 0,
            prev_log_term: 0,
            entries: vec![LogEntry {
                term: 2,
                command: Command::Put { key: "k".to_string(), value: "v".to_string() },
            }],
            leader_commit: 1,
        },
    });
    assert!(can_handle(&node, &msg));
    let out = handle_message(&mut node, &store, msg);
    assert!(out.reset_election);
    match out.reply {
        Some(RpcMessage::AppendEntriesReply(env)) => {
            assert_eq!((env.from, env.to), (1, 0));
            assert!(env.payload.success);
            assert_eq!(env.payload.match_index, 1);
        }
        _ => panic!("expected an append reply"),
    }
    assert_eq!(node.leader_id, Some(0));
    assert_eq!(node.commit_index, 1);
}

#[test]
fn test_client_read_answers_from_store() {
    let mut node = RaftNode::new(0, vec![1]);
    let mut store = KvStore::new();
    store.set("a".to_string(), "1".to_string());
    let out = handle_message(
        &mut node,
        &store,
        RpcMessage::ClientRequest(ClientRequest::Get { key: "a".to_string() }),
    );
    match out.reply {
        Some(RpcMessage::ClientReply(ClientReply::Success { value })) => {
            assert_eq!(value, Some("1".to_string()))
        }
        _ => panic!("expected a value"),
    }
    let out = handle_message(
        &mut node,
        &store,
        RpcMessage::ClientRequest(ClientRequest::Get { key: "b".to_string() }),
    );
    match out.reply {
        Some(RpcMessage::ClientReply(ClientReply::Success { value })) => assert_eq!(value, None),
        _ => panic!("expected no value"),
    }
}

#[test]
fn test_client_write_to_follower_names_leader() {
    let mut node = RaftNode::new(1, vec![0]);
    node.leader_id = Some(0);
    let store = KvStore::new();
    let msg = put("x", "y");
    assert!(can_handle(&node, &msg));
    let out = handle_message(&mut node, &store, msg);
    match out.reply {
        Some(RpcMessage::ClientReply(ClientReply::NotLeader { leader_id })) => {
            assert_eq!(leader_id, Some(0))
        }
        _ => panic!("expected a redirect"),
    }
    assert!(out.pending.is_none());
    assert_eq!(node.log.len(), 1);
}

#[test]
fn test_client_write_to_leader_waits_for_commit() {
    let mut node = single_leader();
    let mut store = KvStore::new();
    let msg = put("x", "y");
    assert!(can_handle(&node, &msg));
    let out = handle_message(&mut node, &store, msg);
    assert!(out.reply.is_none());
    let write = out.pending.unwrap();
    assert_eq!(write.index, 1);
    assert_eq!(write.entry, LogEntry { term: 1, command: Command::Put { key: "x".to_string(), value: "y".to_string() } });
    // A single node commits at once.
    assert_eq!(node.commit_index, 1);
    assert_eq!(write_fate(&node, &write), Some(WriteFate::Committed));
    assert!(can_settle(&node));
    let applied = settle(&mut node, &mut store);
    assert_eq!(applied, 1);
    assert_eq!(store.get("x"), Some(&"y".to_string()));
}

#[test]
fn test_delete_through_the_log() {
    let mut node = single_leader();
    let mut store = KvStore::new();
    handle_message(&mut node, &store, put("gone", "soon"));
    settle(&mut node, &mut store);
    let out = handle_message(
        &mut node,
        &store,
        RpcMessage::ClientRequest(ClientRequest::Delete { key: "gone".to_string() }),
    );
    assert_eq!(out.pending.unwrap().index, 2);
    settle(&mut node, &mut store);
    assert_eq!(store.get("gone"), None);
}

#[test]
fn test_client_reply_is_ignored() {
    let mut node = RaftNode::new(0, vec![1]);
    let store = KvStore::new();
    let out = handle_message(
        &mut node,
        &store,
        RpcMessage::ClientReply(ClientReply::Error { message: "x".to_string() }),
    );
    assert!(out.reply.is_none());
    assert!(out.outbound.is_empty());
    assert!(!out.reset_election);
}

#[test]
fn test_settle_compacts_long_log() {
    let mut node = single_leader();
    let mut store = KvStore::new();
    for i in 0..COMPACTION_THRESHOLD {
        let msg = put(&format!("k{}", i), "v");
        assert!(can_handle(&node, &msg));
        handle_message(&mut node, &store, msg);
    }
    // sentinel + 20 entries: longer than the threshold.
    assert_eq!(node.log.len(), COMPACTION_THRESHOLD + 1);
    assert!(can_settle(&node));
    let applied = settle(&mut node, &mut store);
    assert_eq!(applied, COMPACTION_THRESHOLD);
    assert_eq!(node.last_included_index, COMPACTION_THRESHOLD as u64);
    assert_eq!(node.log.len(), 1);
    assert_eq!(store.len(), COMPACTION_THRESHOLD);
}

#[test]
fn test_settle_keeps_short_log() {
    let mut node = single_leader();
    let mut store = KvStore::new();
    handle_message(&mut node, &store, put("a", "b"));
    settle(&mut node, &mut store);
    assert_eq!(node.last_included_index, 0);
    assert_eq!(node.log.len(), 2);
}

#[test]
fn test_write_waits_until_its_entry_commits() {
    // Leader of two: the write waits for the follower.
    let mut node = RaftNode::new(0, vec![1]);
    node.start_election();
    node.handle_request_vote_reply(1, RequestVoteReply { term: 1, vote_granted: true });
    let store = KvStore::new();
    let out = handle_message(&mut node, &store, put("k", "v"));
    let write = out.pending.unwrap();
    assert_eq!(write_fate(&node, &write), None);
    node.handle_append_entries_reply(1, AppendEntriesReply { term: 1, success: true, match_index: 1 });
    assert_eq!(write_fate(&node, &write), Some(WriteFate::Committed));
}

#[test]
fn test_write_replaced_by_new_leader_is_lost() {
    // Node 0 accepted a write in term 1, then a leader of term 2 put its own
    // entry at that index and committed it.
    let mut node = RaftNode::new(0, vec![1, 2]);
    node.start_election();
    node.handle_request_vote_reply(1, RequestVoteReply { term: 1, vote_granted: true });
    let store = KvStore::new();
    let write = handle_message(&mut node, &store, put("mine", "1")).pending.unwrap();
    node.handle_append_entries(AppendEntriesArgs {
        term: 2,
        leader_id: 2,
        prev_log_index: 0,
        prev_log_term: 0,
        entries: vec![LogEntry {
            term: 2,
            command: Command::Put { key: "theirs".to_string(), value: "2".to_string() },
        }],
        leader_commit: 1,
    });
    assert_eq!(node.commit_index, 1);
    assert_eq!(write_fate(&node, &write), Some(WriteFate::Overwritten));
    assert!(matches!(fate_reply(WriteFate::Overwritten), ClientReply::Error { .. }));
}

#[test]
fn test_write_cut_from_log_is_lost() {
    let mut node = RaftNode::new(0, vec![1]);
    node.start_election();
    node.handle_request_vote_reply(1, RequestVoteReply { term: 1, vote_granted: true });
    let store = KvStore::new();
    handle_message(&mut node, &store, put("a", "1"));
    let write = PendingWrite {
        index: 5,
        entry: LogEntry { term: 1, command: Command::Delete { key: "a".to_string() } },
    };
    assert_eq!(write_fate(&node, &write), Some(WriteFate::Overwritten));
}

#[test]
fn test_write_under_snapshot_is_unknown() {
    let mut node = RaftNode::new(1, vec![0]);
    node.handle_install_snapshot(raft_kv::raft::InstallSnapshotArgs {
        term: 3,
        leader_id: 0,
        last_included_index: 7,
        last_included_term: 3,
        data: vec![],
    });
    let write = PendingWrite {
        index: 6,
        entry: LogEntry { term: 1, command: Command::Delete { key: "a".to_string() } },
    };
    assert_eq!(write_fate(&node, &write), Some(WriteFate::Unknown));
    assert!(matches!(fate_reply(WriteFate::Unknown), ClientReply::Error { .. }));
    assert!(matches!(fate_reply(WriteFate::Committed), ClientReply::Success { value: None }));
}

#[test]
fn test_new_timers_draw_timeout_in_range() {
    let mut seen = std::collections::HashSet::new();
    for _ in 0..200 {
        let t = Timers::new();
        let e = t.election_timeout();
        assert!(ELECTION_TIMEOUT_MIN_MS <= e && e < ELECTION_TIMEOUT_MAX_MS);
        seen.insert(e);
    }
    // The timeouts are drawn at random, not fixed at one end of the range.
    assert!(seen.len() > 1);
}

#[test]
fn test_follower_starts_election_when_timer_runs_out() {
    let mut node = RaftNode::new(0, vec![1, 2]);
    let mut timers = Timers::new();
    let timeout = timers.election_timeout();
    let mut ticks = 0u32;
    loop {
        assert!(can_tick(&node, &timers));
        ticks += 1;
        let (action, msgs) = on_tick(&mut node, &mut timers);
        if action == TickAction::StartElection {
            assert_eq!(msgs.len(), 2);
            break;
        }
        assert!(msgs.is_empty());
        assert!(ticks < 100);
    }
    assert_eq!(ticks, (timeout + 9) / 10);
    assert_eq!(node.state, NodeState::Candidate);
    assert_eq!(node.current_term, 1);
}

#[test]
fn test_leader_heartbeats_every_fifty_ms() {
    let mut node = RaftNode::new(0, vec![1]);
    node.start_election();
    node.handle_request_vote_reply(
        1,
        raft_kv::raft::RequestVoteReply { term: 1, vote_granted: true },
    );
    assert_eq!(node.state, NodeState::Leader);
    let mut timers = Timers::new();
    let mut beats = Vec::new();
    for tick in 1..=10 {
        let (action, msgs) = on_tick(&mut node, &mut timers);
        if action == TickAction::SendHeartbeats {
            assert_eq!(msgs.len(), 1);
            assert!(matches!(msgs[0], OutboundMsg::AppendEntries { to: 1, .. }));
            beats.push(tick);
        }
    }
    assert_eq!(beats, vec![5, 10]);
}

#[test]
fn test_new_leader_heartbeats_on_next_tick() {
    let mut node = single_leader();
    let mut timers = Timers::new();
    timers.after_message(true, false);
    let (action, _) = on_tick(&mut node, &mut timers);
    assert_eq!(action, TickAction::SendHeartbeats);
}

#[test]
fn test_router_follows_redirect() {
    let mut router = Router::new(3).unwrap();
    assert_eq!(router.target(), 0);
    let step = router.after_reply(&ClientReply::NotLeader { leader_id: Some(2) });
    assert_eq!(step, RouteStep::Retry { wait_ms: REDIRECT_WAIT_MS });
    assert_eq!(router.target(), 2);
    let step = router.after_reply(&ClientReply::Success { value: None });
    assert_eq!(step, RouteStep::Finished);
}

#[test]
fn test_router_moves_on_without_leader() {
    let mut router = Router::new(3).unwrap();
    let step = router.after_reply(&ClientReply::NotLeader { leader_id: None });
    assert_eq!(step, RouteStep::Retry { wait_ms: RETRY_WAIT_MS });
    assert_eq!(router.target(), 1);
    // A leader id outside the node list is not followed.
    router.after_reply(&ClientReply::NotLeader { leader_id: Some(7) });
    assert_eq!(router.target(), 2);
    router.after_failure();
    assert_eq!(router.target(), 0);
}

#[test]
fn test_router_error_reply_finishes() {
    let mut router = Router::new(1).unwrap();
    let step = router.after_reply(&ClientReply::Error { message: "boom".to_string() });
    assert_eq!(step, RouteStep::Finished);
}

#[test]
fn test_router_gives_up_after_twice_the_nodes() {
    assert!(Router::new(0).is_none());
    let mut router = Router::new(3).unwrap();
    let mut attempts = 0;
    while router.has_attempts_left() {
        attempts += 1;
        assert!(router.target() < 3);
        router.after_failure();
    }
    assert_eq!(attempts, 6);
}

#[test]
fn test_heard_leader_never_times_out() {
    let mut node = RaftNode::new(1, vec![0, 2]);
    let mut timers = Timers::new();
    for _ in 0..100 {
        timers.after_message(false, true);
        let (action, _) = on_tick(&mut node, &mut timers);
        assert_eq!(action, TickAction::Idle);
    }
    assert_eq!(node.state, NodeState::Follower);
    assert_eq!(node.current_term, 0);
}
