use raft_kv::raft::{
    AppendEntriesArgs, Command, LogEntry, NodeState, OutboundMsg, RaftNode, RequestVoteArgs,
};
use raft_kv::store::KvStore;

fn cluster3() -> [RaftNode; 3] {
    [
        RaftNode::new(0, vec![1, 2]),
        RaftNode::new(1, vec![0, 2]),
        RaftNode::new(2, vec![0, 1]),
    ]
}

/// Deliver every outbound message, and the replies, until nothing is left.
fn flush(nodes: &mut [RaftNode; 3], initial: Vec<OutboundMsg>) {
    let mut queue = initial;
    while !queue.is_empty() {
        let mut next: Vec<OutboundMsg> = vec![];
        for msg in queue.drain(..) {
            match msg {
                OutboundMsg::RequestVote { to, args } => {
                    let from = args.candidate_id;
                    let (reply, out) = nodes[to as usize].handle_request_vote(args);
                    next.extend(out);
                    next.extend(nodes[from as usize].handle_request_vote_reply(to, reply));
                }
                OutboundMsg::AppendEntries { to, args } => {
                    let leader = args.leader_id;
                    let (reply, out) = nodes[to as usize].handle_append_entries(args);
                    next.extend(out);
                    next.extend(nodes[leader as usize].handle_append_entries_reply(to, reply));
                }
                OutboundMsg::InstallSnapshot { to, args } => {
                    let leader = args.leader_id;
                    let (reply, out) = nodes[to as usize].handle_install_snapshot(args);
                    next.extend(out);
                    next.extend(nodes[leader as usize].handle_install_snapshot_reply(to, reply));
                }
            }
        }
        queue = next;
    }
}

#[test]
fn test_single_node_wins_election_immediately() {
    let mut node = RaftNode::new(0, vec![]);
    let msgs = node.start_election();
    assert!(msgs.is_empty(), "no peers → no messages to send");
    assert_eq!(node.state, NodeState::Leader);
    assert_eq!(node.current_term, 1);
}

#[test]
fn test_three_node_election_produces_one_leader() {
    let mut nodes = cluster3();
    let msgs = nodes[0].start_election();
    flush(&mut nodes, msgs);

    assert_eq!(nodes[0].state, NodeState::Leader);
    assert_eq!(nodes[0].current_term, 1);
    assert_eq!(nodes[1].current_term, 1);
    assert_eq!(nodes[2].current_term, 1);
}

#[test]
fn test_vote_denied_when_candidate_term_is_stale() {
    let mut follower = RaftNode::new(1, vec![0, 2]);
    follower.current_term = 5;

    let (reply, _) = follower.handle_request_vote(RequestVoteArgs {
        term: 3,
        candidate_id: 0,
        last_log_index: 0,
        last_log_term: 0,
    });
    assert!(!reply.vote_granted);
    assert_eq!(reply.term, 5);
}

#[test]
fn test_vote_denied_when_candidate_log_is_behind() {
    let mut follower = RaftNode::new(1, vec![0, 2]);
    follower.log.push(LogEntry {
        term: 2,
        command: Command::Put { key: "x".into(), value: "1".into() },
    });
    follower.current_term = 2;

    let (reply, _) = follower.handle_request_vote(RequestVoteArgs {
        term: 2,
        candidate_id: 0,
        last_log_index: 0,
        last_log_term: 0,
    });
    assert!(!reply.vote_granted);
}

#[test]
fn test_higher_term_in_ae_converts_candidate_to_follower() {
    let mut nodes = cluster3();
    let _ = nodes[0].start_election();
    assert_eq!(nodes[0].state, NodeState::Candidate);

    let (reply, _) = nodes[0].handle_append_entries(AppendEntriesArgs {
        term: 2,
        leader_id: 1,
        prev_log_index: 0,
        prev_log_term: 0,
        entries: vec![],
        leader_commit: 0,
    });

    assert!(reply.success);
    assert_eq!(nodes[0].state, NodeState::Follower);
    assert_eq!(nodes[0].current_term, 2);
    assert_eq!(nodes[0].leader_id, Some(1));
}

#[test]
fn test_leader_replicates_and_commits_to_majority() {
    let mut nodes = cluster3();
    let mut stores = [KvStore::new(), KvStore::new(), KvStore::new()];

    let msgs = nodes[0].start_election();
    flush(&mut nodes, msgs);
    assert_eq!(nodes[0].state, NodeState::Leader);

    let (_, msgs) = nodes[0]
        .propose(Command::Put { key: "hello".into(), value: "raft".into() })
        .unwrap();
    flush(&mut nodes, msgs);

    assert_eq!(nodes[0].commit_index, 1);

    nodes[0].apply_committed(&mut stores[0]);
    assert_eq!(stores[0].get("hello"), Some(&"raft".to_string()));
}

#[test]
fn test_followers_replicate_log_entries() {
    let mut nodes = cluster3();

    let msgs = nodes[0].start_election();
    flush(&mut nodes, msgs);

    let (_, msgs) = nodes[0]
        .propose(Command::Put { key: "k".into(), value: "v".into() })
        .unwrap();
    flush(&mut nodes, msgs);

    for node in &nodes {
        assert!(node.log.len() > 1, "node {} log is empty", node.id);
        let entry = &node.log[1];
        assert_eq!(entry.command, Command::Put { key: "k".into(), value: "v".into() });
    }
}

#[test]
fn test_append_entries_rejected_when_term_is_stale() {
    let mut follower = RaftNode::new(1, vec![0, 2]);
    follower.current_term = 4;

    let (reply, _) = follower.handle_append_entries(AppendEntriesArgs {
        term: 2,
        leader_id: 0,
        prev_log_index: 0,
        prev_log_term: 0,
        entries: vec![],
        leader_commit: 0,
    });

    assert!(!reply.success);
    assert_eq!(reply.term, 4);
}

#[test]
fn test_multiple_proposals_all_committed() {
    let mut nodes = cluster3();
    let mut store = KvStore::new();

    let msgs = nodes[0].start_election();
    flush(&mut nodes, msgs);

    let writes = vec![
        Command::Put { key: "a".into(), value: "1".into() },
        Command::Put { key: "b".into(), value: "2".into() },
        Command::Delete { key: "a".into() },
    ];
    for cmd in writes {
        let (_, msgs) = nodes[0].propose(cmd).unwrap();
        flush(&mut nodes, msgs);
    }

    assert_eq!(nodes[0].log.len(), 4);
    assert_eq!(nodes[0].commit_index, 3);

    nodes[0].apply_committed(&mut store);
    assert_eq!(store.get("a"), None);
    assert_eq!(store.get("b"), Some(&"2".to_string()));
}

#[test]
fn test_non_leader_propose_returns_error() {
    let mut node = RaftNode::new(0, vec![1, 2]);
    let result = node.propose(Command::Put { key: "x".into(), value: "y".into() });
    assert!(result.is_err());
    assert_eq!(result.unwrap_err(), "not leader");
}

#[test]
fn test_new_election_after_leader_drops() {
    let mut nodes = cluster3();

    let msgs = nodes[0].start_election();
    flush(&mut nodes, msgs);
    assert_eq!(nodes[0].state, NodeState::Leader);

    let msgs = nodes[1].start_election();
    flush(&mut nodes, msgs);

    assert_eq!(nodes[1].state, NodeState::Leader);
    assert_eq!(nodes[1].current_term, 2);
    assert_eq!(nodes[0].state, NodeState::Follower);
}
