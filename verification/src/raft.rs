//! Raft consensus as a pure state machine: it receives messages, updates its
//! state and returns the messages to send. Networking, timers and disk live
//! elsewhere. Every handler is held to the transition of the same name in
//! `raft_model`.
use std::collections::{HashMap, HashSet};

use vstd::prelude::*;

use crate::raft_model::{apply_command, apply_entries, count_at_least, first_mismatch, merge_entries, log_view, msgs_view, sentinel, LogEntryView, OutboundMsgView, RaftNodeView};
use crate::store::KvStore;

verus! {

broadcast use vstd::std_specs::hash::group_hash_axioms;

/// A command that changes the key-value state machine.
#[derive(Debug, PartialEq, Eq)]
pub enum Command {
    Put { key: String, value: String },
    Delete { key: String },
}

impl Clone for Command {
    fn clone(&self) -> (r: Self)
        ensures
            r == *self,
    {
        match self {
            Command::Put { key, value } => Command::Put { key: key.clone(), value: value.clone() },
            Command::Delete { key } => Command::Delete { key: key.clone() },
        }
    }
}

/// One entry of the replicated log.
#[derive(Debug, PartialEq, Eq)]
pub struct LogEntry {
    /// Term in which the leader created this entry.
    pub term: u64,
    pub command: Command,
}

impl Clone for LogEntry {
    fn clone(&self) -> (r: Self)
        ensures
            r == *self,
    {
        LogEntry { term: self.term, command: self.command.clone() }
    }
}

/// Role of a node.
#[derive(Debug, Clone, Copy, PartialEq, Eq, Structural)]
pub enum NodeState {
    Follower,
    Candidate,
    Leader,
}

#[derive(Debug, Clone, Copy)]
pub struct RequestVoteArgs {
    /// Candidate's term.
    pub term: u64,
    /// Candidate requesting the vote.
    pub candidate_id: u64,
    /// Index of the candidate's last log entry.
    pub last_log_index: u64,
    /// Term of the candidate's last log entry.
    pub last_log_term: u64,
}

#[derive(Debug, Clone, Copy)]
pub struct RequestVoteReply {
    /// Current term of the voter.
    pub term: u64,
    /// Whether the vote was granted.
    pub vote_granted: bool,
}

#[derive(Debug, Clone)]
pub struct AppendEntriesArgs {
    /// Leader's term.
    pub term: u64,
    /// Leader's id, so that followers can redirect clients.
    pub leader_id: u64,
    /// Index of the entry just before the new ones.
    pub prev_log_index: u64,
    /// Term of the entry at `prev_log_index`.
    pub prev_log_term: u64,
    /// New entries (empty for a heartbeat).
    pub entries: Vec<LogEntry>,
    /// Leader's commit index.
    pub leader_commit: u64,
}

#[derive(Debug, Clone, Copy)]
pub struct AppendEntriesReply {
    /// Current term of the follower.
    pub term: u64,
    /// Whether the follower accepted the entries.
    pub success: bool,
    /// Highest index the follower now matches.
    pub match_index: u64,
}

#[derive(Debug, Clone)]
pub struct InstallSnapshotArgs {
    pub term: u64,
    pub leader_id: u64,
    pub last_included_index: u64,
    pub last_included_term: u64,
    pub data: Vec<u8>,
}

#[derive(Debug, Clone, Copy)]
pub struct InstallSnapshotReply {
    pub term: u64,
}

/// A message the state machine wants sent to a peer.
#[derive(Debug, Clone)]
#[allow(inconsistent_fields)]
pub enum OutboundMsg {
    RequestVote { to: u64, args: RequestVoteArgs },
    AppendEntries { to: u64, args: AppendEntriesArgs },
    InstallSnapshot { to: u64, args: InstallSnapshotArgs },
}

pub struct RaftNode {
    pub id: u64,
    pub current_term: u64,
    pub voted_for: Option<u64>,
    pub last_included_index: u64,
    pub last_included_term: u64,
    /// `log[0]` stands for the snapshot (`last_included_index`).
    pub log: Vec<LogEntry>,
    pub state: NodeState,
    /// Highest index known to be committed.
    pub commit_index: usize,
    /// Highest index applied to the key-value store.
    pub last_applied: usize,
    /// For each peer: next index to send to it.
    pub next_index: HashMap<u64, usize>,
    /// For each peer: highest index known to be replicated on it.
    pub match_index: HashMap<u64, usize>,
    pub peers: Vec<u64>,
    /// Voters that granted this node its vote in the current election.
    pub votes_received: HashSet<u64>,
    /// Last known leader, for client redirects.
    pub leader_id: Option<u64>,
}

impl View for RaftNode {
    type V = RaftNodeView;

    open spec fn view(&self) -> RaftNodeView {
        RaftNodeView {
            id: self.id,
            current_term: self.current_term,
            voted_for: self.voted_for,
            last_included_index: self.last_included_index,
            last_included_term: self.last_included_term,
            log: log_view(self.log@),
            state: self.state,
            commit_index: self.commit_index,
            last_applied: self.last_applied,
            next_index: self.next_index@,
            match_index: self.match_index@,
            peers: self.peers@,
            votes_received: self.votes_received@,
            leader_id: self.leader_id,
        }
    }
}


impl RaftNode {
    pub fn new(id: u64, peers: Vec<u64>) -> (node: Self)
        requires
            peers.len() < usize::MAX,
        ensures
            node@ == (RaftNodeView {
                id,
                current_term: 0,
                voted_for: None,
                last_included_index: 0,
                last_included_term: 0,
                log: seq![sentinel(0)],
                state: NodeState::Follower,
                commit_index: 0,
                last_applied: 0,
                next_index: Map::empty(),
                match_index: Map::empty(),
                peers: peers@,
                votes_received: Set::empty(),
                leader_id: None,
            }),
            node@.wf(),
    {
        let mut log = Vec::new();
        log.push(sentinel_entry(0));
        let node = RaftNode {
            id,
            current_term: 0,
            voted_for: None,
            last_included_index: 0,
            last_included_term: 0,
            log,
            state: NodeState::Follower,
            commit_index: 0,
            last_applied: 0,
            next_index: HashMap::new(),
            match_index: HashMap::new(),
            peers,
            votes_received: HashSet::new(),
            leader_id: None,
        };
        assert(node@.log =~= seq![sentinel(0)]);
        node
    }

    fn physical(&self, logical_index: u64) -> (r: Option<usize>)
        ensures
            r == (if logical_index < self.last_included_index {
                None
            } else {
                Some((logical_index - self.last_included_index) as usize)
            }),
    {
        if logical_index < self.last_included_index {
            None
        } else {
            Some((logical_index - self.last_included_index) as usize)
        }
    }

    fn logical(&self, physical_index: usize) -> (r: u64)
        requires
            self.last_included_index + physical_index <= u64::MAX,
        ensures
            r == self.last_included_index + physical_index,
    {
        self.last_included_index + physical_index as u64
    }

    fn last_log_index(&self) -> (r: u64)
        requires
            self@.wf(),
        ensures
            r == self@.last_log_index(),
    {
        self.logical(self.log.len() - 1)
    }

    fn last_log_term(&self) -> (r: u64)
        ensures
            r == self@.last_log_term(),
    {
        if self.log.len() == 0 {
            0
        } else {
            self.log[self.log.len() - 1].term
        }
    }

    /// Section 5.4.1: is a log ending in (`other_last_index`, `other_last_term`)
    /// at least as up to date as ours?
    fn other_log_up_to_date(&self, other_last_index: u64, other_last_term: u64) -> (r: bool)
        requires
            self@.wf(),
        ensures
            r == self@.other_log_up_to_date(other_last_index, other_last_term),
    {
        if other_last_term != self.last_log_term() {
            other_last_term > self.last_log_term()
        } else {
            other_last_index >= self.last_log_index()
        }
    }

    fn cluster_size(&self) -> (r: usize)
        requires
            self.peers.len() < usize::MAX,
        ensures
            r == self.peers.len() + 1,
    {
        self.peers.len() + 1
    }

    fn majority(&self) -> (r: usize)
        requires
            self.peers.len() < usize::MAX,
        ensures
            r == self@.majority(),
    {
        self.cluster_size() / 2 + 1
    }

    /// Revert to follower at `term`, clearing the election bookkeeping; the
    /// vote given in the current term is kept, one of an older term dropped.
    fn become_follower(&mut self, term: u64)
        ensures
            final(self)@ == old(self)@.become_follower(term),
    {
        if term != self.current_term {
            self.voted_for = None;
        }
        self.state = NodeState::Follower;
        self.current_term = term;
        self.leader_id = None;
        self.votes_received.clear();
    }
}


impl RaftNode {
    /// Copies of the log entries from physical index `from` on.
    fn log_suffix(&self, from: usize) -> (r: Vec<LogEntry>)
        requires
            from <= self.log.len(),
        ensures
            r@ == self.log@.skip(from as int),
    {
        let mut r: Vec<LogEntry> = Vec::new();
        let mut i = from;
        while i < self.log.len()
            invariant
                from <= i <= self.log.len(),
                r@ == self.log@.subrange(from as int, i as int),
            decreases self.log.len() - i,
        {
            r.push(self.log[i].clone());
            i = i + 1;
            assert(r@ =~= self.log@.subrange(from as int, i as int));
        }
        assert(r@ =~= self.log@.skip(from as int));
        r
    }

    /// The message that brings `peer`, whose next index is `next`, up to date:
    /// an InstallSnapshot when it lags behind the snapshot, else an AppendEntries.
    fn build_append_entries_for(&self, peer: u64, next: usize) -> (r: Vec<OutboundMsg>)
        requires
            self@.wf(),
            next <= self@.last_log_index() + 1,
        ensures
            msgs_view(r@) == seq![self@.message_for(peer, next)],
    {
        let next_logical = next as u64;
        let mut r: Vec<OutboundMsg> = Vec::new();
        if next_logical <= self.last_included_index {
            r.push(
                OutboundMsg::InstallSnapshot {
                    to: peer,
                    args: InstallSnapshotArgs {
                        term: self.current_term,
                        leader_id: self.id,
                        last_included_index: self.last_included_index,
                        last_included_term: self.last_included_term,
                        data: Vec::new(),
                    },
                },
            );
            assert(msgs_view(r@) =~= seq![self@.message_for(peer, next)]);
            return r;
        }
        let prev_logical = next_logical - 1;
        let prev_physical = match self.physical(prev_logical) {
            Some(p) => p,
            None => 0,
        };
        let prev_log_term = self.log[prev_physical].term;
        let next_physical = match self.physical(next_logical) {
            Some(p) => p,
            None => self.log.len(),
        };
        let entries = if next_physical < self.log.len() {
            self.log_suffix(next_physical)
        } else {
            Vec::new()
        };
        r.push(
            OutboundMsg::AppendEntries {
                to: peer,
                args: AppendEntriesArgs {
                    term: self.current_term,
                    leader_id: self.id,
                    prev_log_index: prev_logical,
                    prev_log_term,
                    entries,
                    leader_commit: self.commit_index as u64,
                },
            },
        );
        proof {
            let from = next - self.last_included_index;
            if from < self.log@.len() {
                assert(log_view(entries@) =~= self@.log.skip(from));
            } else {
                assert(log_view(entries@) =~= Seq::<LogEntryView>::empty());
            }
        }
        assert(msgs_view(r@) =~= seq![self@.message_for(peer, next)]);
        r
    }

    /// AppendEntries (or InstallSnapshot) for every peer.
    fn broadcast_append_entries(&self) -> (r: Vec<OutboundMsg>)
        requires
            self@.wf(),
            self@.next_indices_in_range(),
        ensures
            msgs_view(r@) == self@.broadcast(),
    {
        let mut r: Vec<OutboundMsg> = Vec::new();
        let mut i: usize = 0;
        while i < self.peers.len()
            invariant
                self@.wf(),
                self@.next_indices_in_range(),
                i <= self.peers.len(),
                msgs_view(r@) == self@.broadcast().take(i as int),
            decreases self.peers.len() - i,
        {
            let peer = self.peers[i];
            let next = match self.next_index.get(&peer) {
                Some(n) => *n,
                None => 1,
            };
            assert(next == self@.next_of(self@.peers[i as int]));
            let mut m = self.build_append_entries_for(peer, next);
            let ghost r0 = r@;
            let ghost m0 = m@;
            r.append(&mut m);
            proof {
                assert(msgs_view(m0).len() == 1);
                assert(m0[0]@ == msgs_view(m0)[0]);
                assert(r@ == r0 + m0);
                assert(msgs_view(r@) =~= msgs_view(r0).push(m0[0]@));
                assert(self@.broadcast().take(i + 1) =~= self@.broadcast().take(i as int).push(
                    self@.broadcast()[i as int],
                ));
            }
            i = i + 1;
            assert(msgs_view(r@) =~= self@.broadcast().take(i as int));
        }
        assert(self@.broadcast().take(i as int) =~= self@.broadcast());
        r
    }

    /// Win the election: lead, reset every peer's next and match index, and
    /// assert leadership with an immediate round of AppendEntries.
    fn become_leader(&mut self) -> (r: Vec<OutboundMsg>)
        requires
            old(self)@.wf(),
        ensures
            final(self)@.wf(),
            (final(self)@, msgs_view(r@)) == old(self)@.become_leader(),
    {
        self.state = NodeState::Leader;
        self.leader_id = Some(self.id);
        let next = self.last_log_index() + 1;
        let ghost v0 = self@;
        let ghost nx = #[verifier::truncate] (next as usize);
        let mut i: usize = 0;
        proof {
            assert(v0.next_index.union_prefer_right(
                Map::new(|k: u64| v0.peers.take(0).contains(k), |k: u64| nx),
            ) =~= v0.next_index);
            assert(v0.match_index.union_prefer_right(
                Map::new(|k: u64| v0.peers.take(0).contains(k), |k: u64| 0usize),
            ) =~= v0.match_index);
        }
        while i < self.peers.len()
            invariant
                v0.wf(),
                next == v0.last_log_index() + 1,
                nx == next as usize,
                i <= self.peers.len(),
                self.peers@ == v0.peers,
                self@ == (RaftNodeView {
                    next_index: v0.next_index.union_prefer_right(
                        Map::new(|k: u64| v0.peers.take(i as int).contains(k), |k: u64| nx),
                    ),
                    match_index: v0.match_index.union_prefer_right(
                        Map::new(|k: u64| v0.peers.take(i as int).contains(k), |k: u64| 0usize),
                    ),
                    ..v0
                }),
            decreases self.peers.len() - i,
        {
            let peer = self.peers[i];
            self.next_index.insert(peer, next as usize);
            self.match_index.insert(peer, 0);
            proof {
                assert(v0.peers.take(i + 1) =~= v0.peers.take(i as int).push(peer));
                assert forall|k: u64| v0.peers.take(i + 1).contains(k) <==> (v0.peers.take(
                    i as int,
                ).contains(k) || k == peer) by {
                    if v0.peers.take(i + 1).contains(k) {
                        let j = choose|j: int| 0 <= j < i + 1 && #[trigger] v0.peers.take(i + 1)[j] == k;
                        if j < i {
                            assert(v0.peers.take(i as int)[j] == k);
                        }
                    }
                    if v0.peers.take(i as int).contains(k) {
                        let j = choose|j: int| 0 <= j < i && #[trigger] v0.peers.take(i as int)[j] == k;
                        assert(v0.peers.take(i + 1)[j] == k);
                    }
                    if k == peer {
                        assert(v0.peers.take(i + 1)[i as int] == k);
                    }
                }
            }
            i = i + 1;
            proof {
                assert(self.next_index@ =~= v0.next_index.union_prefer_right(
                    Map::new(|k: u64| v0.peers.take(i as int).contains(k), |k: u64| nx),
                ));
                assert(self.match_index@ =~= v0.match_index.union_prefer_right(
                    Map::new(|k: u64| v0.peers.take(i as int).contains(k), |k: u64| 0usize),
                ));
            }
        }
        proof {
            assert(v0.peers.take(i as int) =~= v0.peers);
            let target = old(self)@.become_leader().0;
            assert(self.next_index@ =~= target.next_index);
            assert(self.match_index@ =~= target.match_index);
            assert(self@ == target);
            assert forall|j: int| 0 <= j < self@.peers.len() implies #[trigger] self@.next_of(
                self@.peers[j],
            ) <= self@.last_log_index() + 1 by {
                assert(v0.peers.contains(self@.peers[j]));
            }
        }
        self.broadcast_append_entries()
    }

    /// The election timeout fired: start a new election (section 5.2).
    pub fn start_election(&mut self) -> (r: Vec<OutboundMsg>)
        requires
            old(self)@.wf(),
            old(self).current_term < u64::MAX,
        ensures
            final(self)@.wf(),
            (final(self)@, msgs_view(r@)) == old(self)@.start_election(),
    {
        self.state = NodeState::Candidate;
        self.current_term = self.current_term + 1;
        self.voted_for = Some(self.id);
        self.votes_received.clear();
        self.votes_received.insert(self.id);
        proof {
            assert(self.votes_received@ =~= set![self.id]);
        }
        if self.votes_received.len() >= self.majority() {
            return self.become_leader();
        }
        let args = RequestVoteArgs {
            term: self.current_term,
            candidate_id: self.id,
            last_log_index: self.last_log_index(),
            last_log_term: self.last_log_term(),
        };
        let mut r: Vec<OutboundMsg> = Vec::new();
        let mut i: usize = 0;
        while i < self.peers.len()
            invariant
                i <= self.peers.len(),
                msgs_view(r@) == self.peers@.take(i as int).map_values(
                    |p: u64| OutboundMsgView::RequestVote { to: p, args },
                ),
            decreases self.peers.len() - i,
        {
            let ghost r0 = r@;
            r.push(OutboundMsg::RequestVote { to: self.peers[i], args });
            proof {
                assert(msgs_view(r@) =~= msgs_view(r0).push(
                    OutboundMsgView::RequestVote { to: self.peers@[i as int], args },
                ));
                assert(self.peers@.take(i + 1) =~= self.peers@.take(i as int).push(
                    self.peers@[i as int],
                ));
            }
            i = i + 1;
            assert(msgs_view(r@) =~= self.peers@.take(i as int).map_values(
                |p: u64| OutboundMsgView::RequestVote { to: p, args },
            ));
        }
        assert(self.peers@.take(i as int) =~= self.peers@);
        r
    }
}



impl RaftNode {
    /// Leader commit rule (sections 5.3 and 5.4.2): commit the highest index N
    /// above the commit index whose entry is of the current term and that a
    /// majority (this node included) has replicated.
    fn try_advance_commit_index(&mut self)
        requires
            old(self)@.wf(),
        ensures
            final(self)@ == old(self)@.advance_commit(),
            final(self)@.wf(),
    {
        let ghost v0 = self@;
        let last_logical = self.last_log_index();
        let a = self.commit_index as u64 + 1;
        let b = self.last_included_index + 1;
        let start = if a > b {
            a
        } else {
            b
        };
        if start > last_logical {
            assert(!exists|m: int| v0.is_highest_committable(start as int, last_logical as int, m));
            return;
        }
        let majority = self.majority();
        let len = self.log.len();
        let mut n = last_logical;
        while n >= start
            invariant
                self@ == v0,
                v0 == old(self)@,
                len == self.log@.len(),
                v0.wf(),
                start == v0.commit_scan_start(),
                last_logical == v0.last_log_index(),
                majority == v0.majority(),
                start >= 1,
                start - 1 <= n <= last_logical,
                forall|m: int| n < m <= last_logical ==> !#[trigger] v0.committable(m),
            decreases n,
        {
            let physical_idx = (n - self.last_included_index) as usize;
            assert(v0.term_at(n as int) == self.log@[physical_idx as int].term);
            if self.log[physical_idx].term == self.current_term {
                let replicated = count_at_least_exec(&self.match_index, n as usize);
                if replicated >= majority - 1 {
                    assert(v0.committable(n as int));
                    proof {
                        let lo = start as int;
                        let hi = last_logical as int;
                        assert(v0.is_highest_committable(lo, hi, n as int));
                        let c = choose|m: int| v0.is_highest_committable(lo, hi, m);
                        if c > n {
                            assert(v0.committable(c));
                        }
                        if c < n {
                            assert(v0.committable(n as int));
                        }
                        assert(v0.highest_committable(lo, hi) == Some(n as int));
                    }
                    self.commit_index = n as usize;
                    return;
                }
                assert(!v0.committable(n as int));
            }
            assert(!v0.committable(n as int));
            n = n - 1;
        }
        assert forall|m: int| !v0.is_highest_committable(start as int, last_logical as int, m) by {
            if v0.is_highest_committable(start as int, last_logical as int, m) {
                assert(v0.committable(m));
            }
        }
    }

    /// Handle an incoming RequestVote (figure 2): grant the vote only to a
    /// candidate of a current term, if no other vote was given in this term,
    /// and if its log is at least as up to date as ours.
    pub fn handle_request_vote(&mut self, args: RequestVoteArgs) -> (r: (RequestVoteReply, Vec<OutboundMsg>))
        requires
            old(self)@.wf(),
        ensures
            final(self)@.wf(),
            (final(self)@, r.0) == old(self)@.request_vote(args),
            r.1@.len() == 0,
    {
        if args.term > self.current_term {
            self.become_follower(args.term);
        }
        let vote_granted = args.term >= self.current_term && (self.voted_for.is_none()
            || self.voted_for == Some(args.candidate_id)) && self.other_log_up_to_date(
            args.last_log_index,
            args.last_log_term,
        );
        if vote_granted {
            self.voted_for = Some(args.candidate_id);
        }
        (RequestVoteReply { term: self.current_term, vote_granted }, Vec::new())
    }

    /// Handle the reply to a RequestVote we sent (section 5.2).
    pub fn handle_request_vote_reply(&mut self, from: u64, reply: RequestVoteReply) -> (r: Vec<
        OutboundMsg,
    >)
        requires
            old(self)@.wf(),
        ensures
            final(self)@.wf(),
            (final(self)@, msgs_view(r@)) == old(self)@.request_vote_reply(from, reply),
    {
        if reply.term > self.current_term {
            self.become_follower(reply.term);
            return Vec::new();
        }
        if self.state != NodeState::Candidate || reply.term != self.current_term {
            return Vec::new();
        }
        if !reply.vote_granted {
            return Vec::new();
        }
        self.votes_received.insert(from);
        if self.votes_received.len() >= self.majority() {
            return self.become_leader();
        }
        Vec::new()
    }
}


impl RaftNode {
    /// Handle an incoming AppendEntries (figure 2).
    pub fn handle_append_entries(&mut self, args: AppendEntriesArgs) -> (r: (
        AppendEntriesReply,
        Vec<OutboundMsg>,
    ))
        requires
            old(self)@.wf(),
            old(self)@.append_accepted(args@) ==> old(self)@.append_fits(args@),
        ensures
            final(self)@.wf(),
            (final(self)@, r.0) == old(self)@.append_entries(args@),
            r.1@.len() == 0,
    {
        let ghost v0 = self@;
        // Rule 1: reject a stale leader.
        if args.term < self.current_term {
            return (
                AppendEntriesReply { term: self.current_term, success: false, match_index: 0 },
                Vec::new(),
            );
        }
        // A valid leader: follow it.
        if args.term > self.current_term || self.state != NodeState::Follower {
            self.become_follower(args.term);
        }
        self.leader_id = Some(args.leader_id);
        let prev_logical = args.prev_log_index;
        // Entries behind our snapshot cannot be checked.
        if prev_logical < self.last_included_index {
            return (
                AppendEntriesReply { term: self.current_term, success: false, match_index: 0 },
                Vec::new(),
            );
        }
        let prev_physical = match self.physical(prev_logical) {
            Some(p) => p,
            None => 0,
        };
        // Rule 2: our log must hold prev_log_index with the same term.
        if prev_physical >= self.log.len() || self.log[prev_physical].term != args.prev_log_term {
            return (
                AppendEntriesReply { term: self.current_term, success: false, match_index: 0 },
                Vec::new(),
            );
        }
        assert(v0.append_accepted(args@));
        // Rules 3 and 4: merge the entries into our log.
        let ghost log0 = self@.log;
        let ghost ents = args@.entries;
        let ghost start: int = prev_physical + 1;
        let ghost v1 = self@;
        let ghost mut cut: Option<int> = None;
        let mut offset: usize = 0;
        while offset < args.entries.len()
            invariant
                v1.log == log0,
                ents == log_view(args.entries@),
                start == prev_physical + 1,
                start <= log0.len(),
                0 <= offset <= args.entries.len(),
                self.log@.len() >= start,
                self@ == (RaftNodeView { log: self@.log, ..v1 }),
                cut is None ==> {
                    &&& self@.log == log0
                    &&& forall|i: int|
                        0 <= i < offset ==> start + i < log0.len() && log0[start + i].term
                            == #[trigger] ents[i].term
                },
                cut matches Some(j) ==> {
                    &&& 0 <= j < offset
                    &&& self.log@.len() == start + offset
                    &&& first_mismatch(log0, start, ents, j)
                    &&& self@.log == log0.take(start + j) + ents.subrange(j, offset as int)
                },
            decreases args.entries.len() - offset,
        {
            let ghost l = self@.log;
            proof {
                if cut is None && offset > 0 {
                    let i: int = offset - 1;
                    assert(0 <= i < offset);
                    assert(ents[i].term == ents[i].term);
                    assert(log0[start + i].term == ents[i].term);
                }
            }
            if offset < self.log.len() - prev_physical - 1 {
                let physical_idx = prev_physical + 1 + offset;
                if self.log[physical_idx].term != args.entries[offset].term {
                    // Conflict: drop our entry and everything after it.
                    self.log.truncate(physical_idx);
                    self.log.push(args.entries[offset].clone());
                    proof {
                        assert(cut is None);
                        assert(first_mismatch(log0, start, ents, offset as int));
                        cut = Some(offset as int);
                        assert(self@.log =~= log0.take(start + offset) + ents.subrange(
                            offset as int,
                            offset + 1,
                        ));
                    }
                } else {
                    proof {
                        assert(cut is None);
                    }
                }
            } else {
                self.log.push(args.entries[offset].clone());
                proof {
                    if cut is None {
                        if offset > 0 {
                            let i = offset - 1;
                            assert(start + i < log0.len() && log0[start + i].term == ents[i].term);
                        }
                        assert(self.log@.len() == l.len() + 1);
                        assert(start + offset == log0.len());
                        assert(first_mismatch(log0, start, ents, offset as int));
                        cut = Some(offset as int);
                        assert(log0.take(start + offset) =~= log0);
                        assert(self@.log =~= log0.take(start + offset) + ents.subrange(
                            offset as int,
                            offset + 1,
                        ));
                    } else {
                        let j = cut->0;
                        assert(self@.log =~= l.push(ents[offset as int]));
                        assert(ents.subrange(j, offset + 1) =~= ents.subrange(j, offset as int).push(
                            ents[offset as int],
                        ));
                        assert(self@.log =~= log0.take(start + j) + ents.subrange(j, offset + 1));
                    }
                }
            }
            offset = offset + 1;
        }
        proof {
            assert(offset == ents.len());
            assert(cut is None ==> self@.log == log0);
            if cut is None && offset > 0 {
                let i: int = 0;
                assert(log0[start + i].term == ents[i].term);
            }
            match cut {
                Some(j) => {
                    assert forall|j2: int| first_mismatch(log0, start, ents, j2) implies j2 == j by {
                        if j2 < j {
                            assert(log0[start + j2].term == ents[j2].term);
                        }
                        if j < j2 {
                            assert(log0[start + j].term == ents[j].term);
                        }
                    }
                    assert(ents.subrange(j, ents.len() as int) =~= ents.skip(j));
                    assert(self@.log == merge_entries(log0, start, ents));
                },
                None => {
                    assert forall|j: int| !first_mismatch(log0, start, ents, j) by {
                        if 0 <= j < ents.len() {
                            let i: int = j;
                            assert(log0[start + i].term == ents[i].term);
                        }
                    }
                },
            }
        }
        // Rule 5: advance the commit index.
        if args.leader_commit > self.commit_index as u64 {
            let a = args.leader_commit as usize;
            let b = self.logical(self.log.len() - 1) as usize;
            self.commit_index = if a <= b {
                a
            } else {
                b
            };
        }
        let match_index = prev_logical + args.entries.len() as u64;
        (AppendEntriesReply { term: self.current_term, success: true, match_index }, Vec::new())
    }
}


impl RaftNode {
    /// Handle the reply to an AppendEntries we sent (section 5.3): on success
    /// record the follower's progress and try to commit; on rejection back its
    /// next index up by one and retry. A reply of an older term is dropped, as
    /// the Raft specification drops stale responses.
    pub fn handle_append_entries_reply(&mut self, from: u64, reply: AppendEntriesReply) -> (r: Vec<
        OutboundMsg,
    >)
        requires
            old(self)@.wf(),
            old(self)@.append_reply_fits(from, reply),
        ensures
            final(self)@.wf(),
            (final(self)@, msgs_view(r@)) == old(self)@.append_entries_reply(from, reply),
    {
        if reply.term > self.current_term {
            self.become_follower(reply.term);
            return Vec::new();
        }
        // A reply from an older term says nothing of the current one.
        if self.state != NodeState::Leader || reply.term < self.current_term {
            return Vec::new();
        }
        if reply.success {
            let mi = reply.match_index as usize;
            self.match_index.insert(from, mi);
            self.next_index.insert(from, mi + 1);
            self.try_advance_commit_index();
            Vec::new()
        } else {
            let current = match self.next_index.get(&from) {
                Some(n) => *n,
                None => 1,
            };
            let next = if current > 1 {
                current - 1
            } else {
                current
            };
            self.next_index.insert(from, next);
            self.build_append_entries_for(from, next)
        }
    }

    /// Handle an incoming InstallSnapshot: a newer snapshot replaces the whole
    /// log, and everything it covers counts as committed.
    pub fn handle_install_snapshot(&mut self, args: InstallSnapshotArgs) -> (r: (
        InstallSnapshotReply,
        Vec<OutboundMsg>,
    ))
        requires
            old(self)@.wf(),
            old(self)@.installs(args@) ==> args.last_included_index < u64::MAX,
        ensures
            final(self)@.wf(),
            (final(self)@, r.0) == old(self)@.install_snapshot(args@),
            r.1@.len() == 0,
    {
        if args.term < self.current_term {
            return (InstallSnapshotReply { term: self.current_term }, Vec::new());
        }
        if args.term > self.current_term || self.state != NodeState::Follower {
            self.become_follower(args.term);
        }
        self.leader_id = Some(args.leader_id);
        if args.last_included_index <= self.last_included_index {
            return (InstallSnapshotReply { term: self.current_term }, Vec::new());
        }
        self.last_included_index = args.last_included_index;
        self.last_included_term = args.last_included_term;
        self.log.clear();
        self.log.push(sentinel_entry(self.last_included_term));
        self.commit_index = self.last_included_index as usize;
        assert(self@.log =~= seq![sentinel(args.last_included_term)]);
        (InstallSnapshotReply { term: self.current_term }, Vec::new())
    }

    /// Handle the reply to an InstallSnapshot we sent: the follower now holds
    /// everything up to our snapshot. A reply of an older term is dropped.
    pub fn handle_install_snapshot_reply(&mut self, from: u64, reply: InstallSnapshotReply) -> (r: Vec<
        OutboundMsg,
    >)
        requires
            old(self)@.wf(),
        ensures
            final(self)@.wf(),
            final(self)@ == old(self)@.install_snapshot_reply(from, reply),
            r@.len() == 0,
    {
        if reply.term > self.current_term {
            self.become_follower(reply.term);
            return Vec::new();
        }
        if self.state != NodeState::Leader || reply.term < self.current_term {
            return Vec::new();
        }
        self.match_index.insert(from, self.last_included_index as usize);
        self.next_index.insert(from, (self.last_included_index + 1) as usize);
        self.try_advance_commit_index();
        Vec::new()
    }

    /// Log compaction: replace the entries up to `up_to_index` by a snapshot
    /// point. Only committed entries beyond the current snapshot qualify;
    /// any other index leaves the node unchanged.
    pub fn compact_log(&mut self, up_to_index: u64)
        requires
            old(self)@.wf(),
            old(self)@.compacts(up_to_index) ==> up_to_index <= old(self)@.last_log_index(),
        ensures
            final(self)@.wf(),
            final(self)@ == old(self)@.compact_log(up_to_index),
    {
        if up_to_index <= self.last_included_index || up_to_index > (self.commit_index as u64) {
            return;
        }
        let physical_idx = (up_to_index - self.last_included_index) as usize;
        let term = self.log[physical_idx].term;
        let ghost v0 = self@;
        let retained = self.log_suffix(physical_idx);
        self.log = retained;
        self.log.set(0, sentinel_entry(term));
        self.last_included_index = up_to_index;
        self.last_included_term = term;
        proof {
            assert(self@.log =~= seq![sentinel(term)] + v0.log.skip(physical_idx + 1));
        }
    }

    /// Accept a client command as leader: append it to the log, replicate it,
    /// and commit at once when this node alone is a majority. Only a leader
    /// accepts commands.
    pub fn propose(&mut self, command: Command) -> (r: Result<(u64, Vec<OutboundMsg>), &'static str>)
        requires
            old(self)@.wf(),
            old(self)@.proposal_fits(command@),
        ensures
            final(self)@.wf(),
            match r {
                Ok((index, msgs)) => {
                    &&& old(self).state == NodeState::Leader
                    &&& (final(self)@, index, msgs_view(msgs@)) == old(self)@.propose(command@)
                },
                Err(e) => {
                    &&& old(self).state != NodeState::Leader
                    &&& final(self)@ == old(self)@
                    &&& e@ == "not leader"@
                },
            },
    {
        if self.state != NodeState::Leader {
            return Err("not leader");
        }
        let ghost cmd = command@;
        self.log.push(LogEntry { term: self.current_term, command });
        assert(self@.log =~= old(self)@.log.push(
            LogEntryView { term: old(self).current_term, command: cmd },
        ));
        assert(self@ == old(self)@.with_proposal(cmd));
        let logical_index = self.last_log_index();
        let msgs = self.broadcast_append_entries();
        self.try_advance_commit_index();
        Ok((logical_index, msgs))
    }

    /// Heartbeat tick: a leader sends AppendEntries to every peer.
    pub fn send_heartbeats(&self) -> (r: Vec<OutboundMsg>)
        requires
            self@.wf(),
            self.state == NodeState::Leader ==> self@.next_indices_in_range(),
        ensures
            msgs_view(r@) == self@.heartbeats(),
    {
        if self.state != NodeState::Leader {
            return Vec::new();
        }
        self.broadcast_append_entries()
    }
}


impl RaftNode {
    /// Apply every newly committed entry to the key-value store, in log order;
    /// returns how many were applied. After a snapshot, applying resumes from
    /// the snapshot point.
    pub fn apply_committed(&mut self, store: &mut KvStore) -> (count: usize)
        requires
            old(self)@.wf(),
            old(self)@.apply_fits(),
        ensures
            final(self)@.wf(),
            final(self)@ == (RaftNodeView { last_applied: old(self)@.applied_through(), ..old(self)@ }),
            count == old(self)@.entries_to_apply().len(),
            final(store)@ == apply_entries(old(store)@, old(self)@.entries_to_apply()),
    {
        let ghost v0 = self@;
        if (self.last_applied as u64) < self.last_included_index {
            self.last_applied = self.last_included_index as usize;
        }
        let ghost start: int = self.last_applied as int;
        assert(start == v0.apply_start());
        let mut count: usize = 0;
        while self.last_applied < self.commit_index
            invariant
                v0 == old(self)@,
                v0.wf(),
                v0.apply_fits(),
                start == v0.apply_start(),
                start <= self.last_applied,
                self.last_applied <= v0.commit_index || self.last_applied == start,
                self@ == (RaftNodeView { last_applied: self.last_applied, ..v0 }),
                count == self.last_applied - start,
                start < self.last_applied ==> store@ == apply_entries(
                    old(store)@,
                    v0.log.subrange(start + 1 - v0.last_included_index, self.last_applied + 1
                        - v0.last_included_index),
                ),
                start == self.last_applied ==> store@ == old(store)@,
            decreases self.commit_index - self.last_applied,
        {
            let ghost la = self.last_applied;
            self.last_applied = self.last_applied + 1;
            let physical_idx = match self.physical(self.last_applied as u64) {
                Some(p) => p,
                None => 0,
            };
            let ghost es_old = v0.log.subrange(start + 1 - v0.last_included_index, la + 1
                - v0.last_included_index);
            let ghost es = v0.log.subrange(start + 1 - v0.last_included_index, self.last_applied + 1
                - v0.last_included_index);
            proof {
                assert(es.drop_last() =~= es_old);
                assert(es.last() == v0.log[physical_idx as int]);
                if start == la as int {
                    assert(es_old =~= Seq::<LogEntryView>::empty());
                }
            }
            let command = self.log[physical_idx].command.clone();
            let ghost prev = store@;
            let ghost cv = command@;
            assert(cv == es.last().command);
            match command {
                Command::Put { key, value } => store.set(key, value),
                Command::Delete { key } => {
                    store.delete(key.as_str());
                },
            }
            proof {
                assert(store@ == apply_command(prev, cv));
                assert(apply_entries(old(store)@, es) == apply_command(
                    apply_entries(old(store)@, es.drop_last()),
                    es.last().command,
                ));
            }
            count = count + 1;
        }
        proof {
            if start < v0.commit_index {
                assert(v0.entries_to_apply() == v0.log.subrange(
                    start + 1 - v0.last_included_index,
                    self.last_applied + 1 - v0.last_included_index,
                ));
            } else {
                assert(v0.entries_to_apply() =~= Seq::<LogEntryView>::empty());
            }
        }
        count
    }
}


impl RaftNode {
    /// Whether the node has the shape every handler relies on (a node that
    /// was rebuilt from a write-ahead log may not).
    pub fn is_well_formed(&self) -> (r: bool)
        ensures
            r == self@.wf(),
    {
        let len = self.log.len();
        len >= 1 && (len as u128) + (self.last_included_index as u128) <= u64::MAX as u128
            && (self.commit_index as u128) < u64::MAX as u128 && self.peers.len() < usize::MAX
    }

    /// Whether every peer's next index is at most `slack` past the index after
    /// the last entry.
    fn next_indices_within(&self, slack: u64) -> (r: bool)
        requires
            self@.wf(),
            slack <= 1,
        ensures
            r == (forall|i: int|
                0 <= i < self@.peers.len() ==> #[trigger] self@.next_of(self@.peers[i])
                    <= self@.last_log_index() + 1 + slack),
    {
        let bound: u128 = self.last_log_index() as u128 + 1 + slack as u128;
        let mut i: usize = 0;
        while i < self.peers.len()
            invariant
                self@.wf(),
                bound == self@.last_log_index() + 1 + slack,
                i <= self.peers@.len(),
                forall|j: int|
                    0 <= j < i ==> #[trigger] self@.next_of(self@.peers[j]) <= self@.last_log_index()
                        + 1 + slack,
            decreases self.peers.len() - i,
        {
            let peer = self.peers[i];
            let next = match self.next_index.get(&peer) {
                Some(n) => *n,
                None => 1,
            };
            assert(next == self@.next_of(self@.peers[i as int]));
            if next as u128 > bound {
                return false;
            }
            i = i + 1;
        }
        true
    }

    /// Whether `send_heartbeats` may be called: a leader can build a message
    /// for every peer.
    pub fn can_send_heartbeats(&self) -> (r: bool)
        requires
            self@.wf(),
        ensures
            r == (self.state == NodeState::Leader ==> self@.next_indices_in_range()),
    {
        if self.state != NodeState::Leader {
            return true;
        }
        self.next_indices_within(0)
    }

    /// Whether `handle_append_entries(args)` may be called: an accepted call
    /// stays within the machine limits.
    pub fn can_append(&self, args: &AppendEntriesArgs) -> (r: bool)
        requires
            self@.wf(),
        ensures
            r == (self@.append_accepted(args@) ==> self@.append_fits(args@)),
    {
        let n = args.entries.len() as u128;
        if args.term < self.current_term || args.prev_log_index < self.last_included_index {
            return true;
        }
        let pp = (args.prev_log_index - self.last_included_index) as usize;
        if pp >= self.log.len() || self.log[pp].term != args.prev_log_term {
            return true;
        }
        (self.last_included_index as u128) + (pp as u128) + n < u64::MAX as u128 && (
        args.prev_log_index as u128) + n <= u64::MAX as u128
    }

    /// Whether `handle_append_entries_reply(from, reply)` may be called.
    pub fn can_take_append_reply(&self, from: u64, reply: &AppendEntriesReply) -> (r: bool)
        requires
            self@.wf(),
        ensures
            r == self@.append_reply_fits(from, *reply),
    {
        if reply.term != self.current_term || self.state != NodeState::Leader {
            return true;
        }
        if reply.success {
            (reply.match_index as usize) < usize::MAX
        } else {
            let current = match self.next_index.get(&from) {
                Some(n) => *n,
                None => 1,
            };
            let next = if current > 1 {
                current - 1
            } else {
                current
            };
            next as u128 <= self.last_log_index() as u128 + 1
        }
    }

    /// Whether `handle_install_snapshot(args)` may be called.
    pub fn can_install(&self, args: &InstallSnapshotArgs) -> (r: bool)
        ensures
            r == (self@.installs(args@) ==> args.last_included_index < u64::MAX),
    {
        !(args.term >= self.current_term && args.last_included_index > self.last_included_index)
            || args.last_included_index < u64::MAX
    }

    /// Whether `propose(command)` may be called.
    pub fn can_propose(&self, command: &Command) -> (r: bool)
        requires
            self@.wf(),
        ensures
            r == self@.proposal_fits(command@),
    {
        if self.state != NodeState::Leader {
            return true;
        }
        if (self.log.len() as u128) + (self.last_included_index as u128) >= u64::MAX as u128 {
            return false;
        }
        let r = self.next_indices_within(1);
        proof {
            let w = self@.with_proposal(command@);
            assert(w.last_log_index() == self@.last_log_index() + 1);
            assert forall|i: int| 0 <= i < w.peers.len() implies #[trigger] w.next_of(w.peers[i])
                == self@.next_of(self@.peers[i]) by {}
            if r {
                assert forall|i: int| 0 <= i < w.peers.len() implies #[trigger] w.next_of(w.peers[i])
                    <= w.last_log_index() + 1 by {
                    assert(self@.next_of(self@.peers[i]) <= self@.last_log_index() + 1 + 1);
                }
            } else {
                let i = choose|i: int|
                    0 <= i < self@.peers.len() && !(#[trigger] self@.next_of(self@.peers[i])
                        <= self@.last_log_index() + 1 + 1);
                assert(w.next_of(w.peers[i]) == self@.next_of(self@.peers[i]));
                assert(!w.next_indices_in_range());
            }
        }
        r
    }

    /// Whether `apply_committed` may be called: every committed entry not yet
    /// applied is in the log.
    pub fn can_apply(&self) -> (r: bool)
        requires
            self@.wf(),
        ensures
            r == self@.apply_fits(),
    {
        let start: usize = if (self.last_applied as u64) < self.last_included_index {
            self.last_included_index as usize
        } else {
            self.last_applied
        };
        if start >= self.commit_index {
            return true;
        }
        (self.last_included_index as u128) <= (start as u128) && (self.commit_index as u128) <= (
        self.last_log_index() as u128)
    }

    /// Whether `compact_log(up_to_index)` may be called.
    pub fn can_compact(&self, up_to_index: u64) -> (r: bool)
        requires
            self@.wf(),
        ensures
            r == (self@.compacts(up_to_index) ==> up_to_index <= self@.last_log_index()),
    {
        !(self.last_included_index < up_to_index && up_to_index as u128 <= self.commit_index as u128)
            || up_to_index <= self.last_log_index()
    }
}

/// A duplicate-free sequence counts its elements that satisfy `p` as its set does.
proof fn lemma_filter_count(s: Seq<u64>, d: Set<u64>, p: spec_fn(u64) -> bool)
    requires
        s.no_duplicates(),
        s.to_set() == d,
    ensures
        s.filter(p).len() == d.filter(p).len(),
        d.finite(),
    decreases s.len(),
{
    broadcast use vstd::seq_lib::group_seq_properties;
    broadcast use vstd::set_lib::group_set_properties;

    if s.len() == 0 {
        assert(d =~= Set::<u64>::empty());
        assert(d.filter(p) =~= Set::<u64>::empty());
        assert(s.filter(p) =~= Seq::<u64>::empty());
    } else {
        let x = s.last();
        let t = s.drop_last();
        assert(s =~= t.push(x));
        assert(t.to_set() =~= d.remove(x)) by {
            assert forall|y: u64| t.to_set().contains(y) implies d.remove(x).contains(y) by {
                let j = choose|j: int| 0 <= j < t.len() && #[trigger] t[j] == y;
                assert(s[j] == y);
                assert(s[s.len() - 1] == x);
                assert(j != s.len() - 1);
            }
            assert forall|y: u64| d.remove(x).contains(y) implies t.to_set().contains(y) by {
                let j = choose|j: int| 0 <= j < s.len() && #[trigger] s[j] == y;
                assert(j != s.len() - 1);
                assert(t[j] == y);
            }
        }
        lemma_filter_count(t, d.remove(x), p);
        t.lemma_filter_push(x, p);
        assert(d =~= d.remove(x).insert(x));
        if p(x) {
            assert(d.filter(p) =~= d.remove(x).filter(p).insert(x));
            assert(!d.remove(x).filter(p).contains(x));
        } else {
            assert(d.filter(p) =~= d.remove(x).filter(p));
        }
    }
}

/// Number of entries of `m` whose value is at least `n`.
fn count_at_least_exec(m: &HashMap<u64, usize>, n: usize) -> (c: usize)
    ensures
        c == count_at_least(m@, n),
{
    broadcast use vstd::seq_lib::group_filter_ensures;

    let ghost p = |k: u64| m@.contains_key(k) && m@[k] >= n;
    let total = m.len();
    let mut c: usize = 0;
    let ghost mut seen: Seq<u64> = Seq::empty();
    proof {
        if total == 0 {
            m@.dom().lemma_len0_is_empty();
            assert(m@.dom().filter(|k: u64| m@[k] >= n) =~= Set::<u64>::empty());
        }
    }
    for k in it: m.keys()
        invariant
            p == (|k: u64| m@.contains_key(k) && m@[k] >= n),
            total == m@.dom().len(),
            0 <= it.index() <= it.seq().len(),
            it.seq().len() == m@.dom().len(),
            it.seq().unref().to_set() == m@.dom(),
            it.seq().unref().no_duplicates(),
            seen == it.seq().unref().take(it.index()),
            seen.len() == it.index(),
            seen.no_duplicates(),
            forall|x: u64| seen.contains(x) ==> m@.contains_key(x),
            c == seen.filter(p).len(),
            c <= it.index(),
            seen.len() == total ==> c == count_at_least(m@, n),
            it.index() == it.seq().len() ==> c == count_at_least(m@, n),
    {
        let kk: u64 = *k;
        let hit = match m.get(&kk) {
            Some(v) => {
                assert(m@.contains_key(kk) && m@[kk] == *v);
                *v >= n
            },
            None => {
                assert(!m@.contains_key(kk));
                false
            },
        };
        proof {
            assert(hit == p(kk));
            assert(!seen.contains(kk));
            assert(m@.contains_key(kk));
            seen.lemma_filter_push(kk, p);
            seen = seen.push(kk);
        }
        if hit {
            c = c + 1;
        }
        proof {
            if seen.len() == total {
                seen.unique_seq_to_set();
                assert(seen.to_set().subset_of(m@.dom()));
                vstd::set_lib::lemma_subset_equality(seen.to_set(), m@.dom());
                lemma_filter_count(seen, m@.dom(), p);
                assert(m@.dom().filter(p) =~= m@.dom().filter(|k: u64| m@[k] >= n));
            }
        }
    }
    c
}

fn sentinel_entry(term: u64) -> (e: LogEntry)
    ensures
        e@ == sentinel(term),
{
    LogEntry { term, command: Command::Put { key: String::new(), value: String::new() } }
}

} // verus!
