use raft_kv::raft::{
    AppendEntriesArgs, AppendEntriesReply, Command, InstallSnapshotArgs, LogEntry, NodeState,
    RaftNode, RequestVoteArgs, RequestVoteReply,
};
use raft_kv::store::KvStore;

fn put(key: &str) -> Command {
    Command::Put { key: key.to_string(), value: "v".to_string() }
}

fn entry(term: u64, key: &str) -> LogEntry {
    LogEntry { term, command: put(key) }
}

fn heartbeat(term: u64, leader: u64, prev: u64, prev_term: u64, commit: u64) -> AppendEntriesArgs {
    AppendEntriesArgs {
        term,
        leader_id: leader,
        prev_log_index: prev,
        prev_log_term: prev_term,
        entries: vec![],
        leader_commit: commit,
    }
}

#[test]
fn test_term_never_goes_down_on_stale_messages() {
    let mut node = RaftNode::new(0, vec![1, 2]);
    node.current_term = 5;
    node.handle_request_vote(RequestVoteArgs {
        term: 3,
        candidate_id: 1,
        last_log_index: 9,
        last_log_term: 3,
    });
    assert_eq!(node.current_term, 5);
    node.handle_append_entries(heartbeat(4, 1, 0, 0, 0));
    assert_eq!(node.current_term, 5);
    node.handle_request_vote_reply(2, RequestVoteReply { term: 2, vote_granted: true });
    assert_eq!(node.current_term, 5);
}

#[test]
fn test_vote_kept_within_term() {
    let mut node = RaftNode::new(0, vec![1, 2]);
    let (first, _) = node.handle_request_vote(RequestVoteArgs {
        term: 2,
        candidate_id: 1,
        last_log_index: 0,
        last_log_term: 0,
    });
    assert!(first.vote_granted);
    let (second, _) = node.handle_request_vote(RequestVoteArgs {
        term: 2,
        candidate_id: 2,
        last_log_index: 0,
        last_log_term: 0,
    });
    assert!(!second.vote_granted);
    assert_eq!(node.voted_for, Some(1));
}

#[test]
fn test_leader_needs_majority_of_five() {
    let mut node = RaftNode::new(0, vec![1, 2, 3, 4]);
    node.start_election();
    node.handle_request_vote_reply(1, RequestVoteReply { term: 1, vote_granted: true });
    assert_eq!(node.state, NodeState::Candidate);
    // A repeated vote from the same voter does not count twice.
    node.handle_request_vote_reply(1, RequestVoteReply { term: 1, vote_granted: true });
    assert_eq!(node.state, NodeState::Candidate);
    node.handle_request_vote_reply(2, RequestVoteReply { term: 1, vote_granted: false });
    assert_eq!(node.state, NodeState::Candidate);
    node.handle_request_vote_reply(3, RequestVoteReply { term: 1, vote_granted: true });
    assert_eq!(node.state, NodeState::Leader);
    assert!(node.votes_received.len() >= 3);
}

fn leader_of_three_at_term_two_with_old_entry() -> RaftNode {
    // Node 0 leads term 2 and holds an entry of term 1 that is not committed.
    let mut node = RaftNode::new(0, vec![1, 2]);
    node.log.push(entry(1, "old"));
    node.current_term = 1;
    node.start_election();
    node.handle_request_vote_reply(1, RequestVoteReply { term: 2, vote_granted: true });
    assert_eq!(node.state, NodeState::Leader);
    assert_eq!(node.current_term, 2);
    node
}

#[test]
fn test_entry_of_older_term_is_not_committed_by_count() {
    let mut node = leader_of_three_at_term_two_with_old_entry();
    node.handle_append_entries_reply(
        1,
        AppendEntriesReply { term: 2, success: true, match_index: 1 },
    );
    assert_eq!(node.commit_index, 0);
    // An entry of the current term commits, and everything before it with it.
    let (index, _) = node.propose(put("new")).unwrap();
    assert_eq!(index, 2);
    assert_eq!(node.commit_index, 0);
    node.handle_append_entries_reply(
        1,
        AppendEntriesReply { term: 2, success: true, match_index: 2 },
    );
    assert_eq!(node.commit_index, 2);
}

#[test]
fn test_commit_never_goes_down_on_lower_leader_commit() {
    let mut node = RaftNode::new(1, vec![0]);
    let mut args = heartbeat(1, 0, 0, 0, 2);
    args.entries = vec![entry(1, "a"), entry(1, "b")];
    node.handle_append_entries(args);
    assert_eq!(node.commit_index, 2);
    let (reply, _) = node.handle_append_entries(heartbeat(1, 0, 2, 1, 1));
    assert!(reply.success);
    assert_eq!(node.commit_index, 2);
}

#[test]
fn test_append_keeps_prefix_and_replaces_conflict() {
    let mut node = RaftNode::new(1, vec![0]);
    node.log.push(entry(1, "a"));
    node.log.push(entry(1, "stale"));
    node.current_term = 1;
    let mut args = heartbeat(3, 0, 1, 1, 0);
    args.entries = vec![entry(3, "fresh")];
    let (reply, _) = node.handle_append_entries(args);
    assert!(reply.success);
    assert_eq!(reply.match_index, 2);
    assert_eq!(node.log.len(), 3);
    assert_eq!(node.log[1], entry(1, "a"));
    assert_eq!(node.log[2], entry(3, "fresh"));
}

#[test]
fn test_append_with_agreeing_entries_keeps_longer_log() {
    let mut node = RaftNode::new(1, vec![0]);
    node.log.push(entry(1, "a"));
    node.log.push(entry(1, "b"));
    node.current_term = 1;
    let mut args = heartbeat(1, 0, 0, 0, 0);
    args.entries = vec![entry(1, "a")];
    node.handle_append_entries(args);
    assert_eq!(node.log.len(), 3);
    assert_eq!(node.log[2], entry(1, "b"));
}

#[test]
fn test_compaction_keeps_log_end_and_sentinel() {
    let mut node = RaftNode::new(0, vec![]);
    node.start_election();
    for k in ["a", "b", "c"] {
        node.propose(put(k)).unwrap();
    }
    let mut store = KvStore::new();
    node.apply_committed(&mut store);
    node.compact_log(2);
    assert_eq!(node.last_included_index, 2);
    assert_eq!(node.last_included_term, 1);
    assert_eq!(node.log.len(), 2);
    assert_eq!(node.log[0].term, node.last_included_term);
    assert_eq!(node.log[1], entry(1, "c"));
    // Not committed beyond 3, nor at or below the snapshot point: nothing happens.
    node.compact_log(2);
    node.compact_log(9);
    assert_eq!(node.last_included_index, 2);
}

#[test]
fn test_install_snapshot_commits_snapshot_point() {
    let mut node = RaftNode::new(1, vec![0]);
    let (reply, _) = node.handle_install_snapshot(InstallSnapshotArgs {
        term: 4,
        leader_id: 0,
        last_included_index: 10,
        last_included_term: 3,
        data: vec![],
    });
    assert_eq!(reply.term, 4);
    assert_eq!(node.commit_index, 10);
    assert_eq!(node.last_included_index, 10);
    assert_eq!(node.log.len(), 1);
    assert_eq!(node.log[0].term, 3);
    assert_eq!(node.leader_id, Some(0));
}

#[test]
fn test_propose_appends_command_at_returned_index() {
    let mut node = RaftNode::new(0, vec![1]);
    node.start_election();
    node.handle_request_vote_reply(1, RequestVoteReply { term: 1, vote_granted: true });
    let (index, msgs) = node.propose(put("z")).unwrap();
    assert_eq!(index, 1);
    assert_eq!(node.log.len(), 2);
    assert_eq!(node.log[1], entry(1, "z"));
    assert_eq!(msgs.len(), 1);
}

#[test]
fn test_leader_only_appends() {
    let mut node = leader_of_three_at_term_two_with_old_entry();
    let before = node.log.clone();
    node.propose(put("x")).unwrap();
    node.handle_append_entries_reply(
        2,
        AppendEntriesReply { term: 2, success: false, match_index: 0 },
    );
    node.handle_append_entries_reply(
        1,
        AppendEntriesReply { term: 2, success: true, match_index: 2 },
    );
    assert_eq!(node.state, NodeState::Leader);
    assert_eq!(node.log.len(), before.len() + 1);
    assert_eq!(node.log[..before.len()], before[..]);
    assert_eq!(node.log[2], LogEntry { term: 2, command: put("x") });
}

#[test]
fn test_candidate_stepping_down_keeps_its_vote() {
    // Node 3 stands in term 1 and votes for itself; the leader of term 1 is
    // heard from, so it steps down, but it cannot vote again in term 1.
    let mut node = RaftNode::new(3, vec![0, 1, 2, 4]);
    node.start_election();
    assert_eq!(node.current_term, 1);
    node.handle_append_entries(heartbeat(1, 0, 0, 0, 0));
    assert_eq!(node.state, NodeState::Follower);
    assert_eq!(node.voted_for, Some(3));
    let (reply, _) = node.handle_request_vote(RequestVoteArgs {
        term: 1,
        candidate_id: 4,
        last_log_index: 0,
        last_log_term: 0,
    });
    assert!(!reply.vote_granted);
    // A new term frees the vote.
    let (reply, _) = node.handle_request_vote(RequestVoteArgs {
        term: 2,
        candidate_id: 4,
        last_log_index: 0,
        last_log_term: 0,
    });
    assert!(reply.vote_granted);
    assert_eq!(node.voted_for, Some(4));
}

#[test]
fn test_five_nodes_elect_one_leader_per_term() {
    // Two candidates of term 1 split the other three voters; only the one
    // with a majority leads, and the other cannot win the stepped-down votes.
    let mut nodes: Vec<RaftNode> = (0..5u64)
        .map(|i| RaftNode::new(i, (0..5u64).filter(|j| *j != i).collect()))
        .collect();
    nodes[0].start_election();
    nodes[4].start_election();
    let ask = |cand: u64| RequestVoteArgs { term: 1, candidate_id: cand, last_log_index: 0, last_log_term: 0 };
    for voter in [1usize, 2] {
        let (reply, _) = nodes[voter].handle_request_vote(ask(0));
        nodes[0].handle_request_vote_reply(voter as u64, reply);
    }
    assert_eq!(nodes[0].state, NodeState::Leader);
    let (reply, _) = nodes[3].handle_request_vote(ask(4));
    nodes[4].handle_request_vote_reply(3, reply);
    // Every node hears from the leader of term 1.
    for i in 1..5 {
        nodes[i].handle_append_entries(heartbeat(1, 0, 0, 0, 0));
    }
    for voter in [0usize, 1, 2] {
        let (reply, _) = nodes[voter].handle_request_vote(ask(4));
        assert!(!reply.vote_granted);
    }
    let leaders = nodes.iter().filter(|n| n.state == NodeState::Leader).count();
    assert_eq!(leaders, 1);
}

#[test]
fn test_snapshot_point_stays_committed() {
    let mut node = RaftNode::new(0, vec![]);
    node.start_election();
    for k in ["a", "b", "c"] {
        node.propose(put(k)).unwrap();
    }
    let mut store = KvStore::new();
    node.apply_committed(&mut store);
    node.compact_log(3);
    assert!(node.last_included_index <= node.commit_index as u64);
    assert_eq!(node.log[0].term, node.last_included_term);
}

#[test]
fn test_stale_append_reply_is_not_counted() {
    // A leader of term 2 must not count an acknowledgement a follower sent
    // in term 1: that follower's log may have changed since.
    let mut node = leader_of_three_at_term_two_with_old_entry();
    let (index, _) = node.propose(put("new")).unwrap();
    assert_eq!(index, 2);
    node.handle_append_entries_reply(
        1,
        AppendEntriesReply { term: 1, success: true, match_index: 2 },
    );
    assert_eq!(node.match_index.get(&1), Some(&0));
    assert_eq!(node.commit_index, 0);
    node.handle_append_entries_reply(
        1,
        AppendEntriesReply { term: 2, success: true, match_index: 2 },
    );
    assert_eq!(node.commit_index, 2);
}
