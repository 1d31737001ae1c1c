//! Mathematical model of a Raft node: views of the executable types and the
//! transition functions that every handler of `RaftNode` is held to.
use vstd::prelude::*;

use crate::raft::{
    AppendEntriesArgs, AppendEntriesReply, Command, InstallSnapshotArgs, InstallSnapshotReply,
    LogEntry, NodeState, OutboundMsg, RequestVoteArgs, RequestVoteReply,
};

verus! {

/// What a command does to the key-value state machine, over character sequences.
pub enum CommandView {
    Put { key: Seq<char>, value: Seq<char> },
    Delete { key: Seq<char> },
}

pub struct LogEntryView {
    pub term: u64,
    pub command: CommandView,
}

pub struct AppendEntriesArgsView {
    pub term: u64,
    pub leader_id: u64,
    pub prev_log_index: u64,
    pub prev_log_term: u64,
    pub entries: Seq<LogEntryView>,
    pub leader_commit: u64,
}

pub struct InstallSnapshotArgsView {
    pub term: u64,
    pub leader_id: u64,
    pub last_included_index: u64,
    pub last_included_term: u64,
    pub data: Seq<u8>,
}

#[allow(inconsistent_fields)]
pub enum OutboundMsgView {
    RequestVote { to: u64, args: RequestVoteArgs },
    AppendEntries { to: u64, args: AppendEntriesArgsView },
    InstallSnapshot { to: u64, args: InstallSnapshotArgsView },
}

impl View for Command {
    type V = CommandView;

    open spec fn view(&self) -> CommandView {
        match self {
            Command::Put { key, value } => CommandView::Put { key: key@, value: value@ },
            Command::Delete { key } => CommandView::Delete { key: key@ },
        }
    }
}

impl View for LogEntry {
    type V = LogEntryView;

    open spec fn view(&self) -> LogEntryView {
        LogEntryView { term: self.term, command: self.command@ }
    }
}

impl View for AppendEntriesArgs {
    type V = AppendEntriesArgsView;

    open spec fn view(&self) -> AppendEntriesArgsView {
        AppendEntriesArgsView {
            term: self.term,
            leader_id: self.leader_id,
            prev_log_index: self.prev_log_index,
            prev_log_term: self.prev_log_term,
            entries: log_view(self.entries@),
            leader_commit: self.leader_commit,
        }
    }
}

impl View for InstallSnapshotArgs {
    type V = InstallSnapshotArgsView;

    open spec fn view(&self) -> InstallSnapshotArgsView {
        InstallSnapshotArgsView {
            term: self.term,
            leader_id: self.leader_id,
            last_included_index: self.last_included_index,
            last_included_term: self.last_included_term,
            data: self.data@,
        }
    }
}

impl View for OutboundMsg {
    type V = OutboundMsgView;

    open spec fn view(&self) -> OutboundMsgView {
        match self {
            OutboundMsg::RequestVote { to, args } => OutboundMsgView::RequestVote { to: *to, args: *args },
            OutboundMsg::AppendEntries { to, args } => OutboundMsgView::AppendEntries { to: *to, args: args@ },
            OutboundMsg::InstallSnapshot { to, args } => OutboundMsgView::InstallSnapshot { to: *to, args: args@ },
        }
    }
}

/// The log as a sequence of entry views.
pub open spec fn log_view(s: Seq<LogEntry>) -> Seq<LogEntryView> {
    s.map_values(|e: LogEntry| e@)
}

/// The outbound messages as a sequence of message views.
pub open spec fn msgs_view(s: Seq<OutboundMsg>) -> Seq<OutboundMsgView> {
    s.map_values(|m: OutboundMsg| m@)
}

/// The entry that stands at physical index 0 and represents the snapshot.
pub open spec fn sentinel(term: u64) -> LogEntryView {
    LogEntryView { term, command: CommandView::Put { key: Seq::empty(), value: Seq::empty() } }
}

/// Number of entries of `m` whose value is at least `n`.
pub open spec fn count_at_least(m: Map<u64, usize>, n: usize) -> nat {
    m.dom().filter(|k: u64| m[k] >= n).len()
}

/// The part of a log that follows a merge of `entries` starting at physical
/// index `start`: the first position where the log has no entry, or where its
/// entry has another term, is where the log is cut and the rest of `entries` follows.
pub open spec fn first_mismatch(log: Seq<LogEntryView>, start: int, entries: Seq<LogEntryView>, j: int) -> bool {
    &&& 0 <= j < entries.len()
    &&& (start + j >= log.len() || log[start + j].term != entries[j].term)
    &&& forall|i: int| 0 <= i < j ==> start + i < log.len() && log[start + i].term == (#[trigger] entries[i]).term
}

pub open spec fn merge_entries(log: Seq<LogEntryView>, start: int, entries: Seq<LogEntryView>) -> Seq<LogEntryView> {
    if exists|j: int| first_mismatch(log, start, entries, j) {
        let j = choose|j: int| first_mismatch(log, start, entries, j);
        log.take(start + j) + entries.skip(j)
    } else {
        log
    }
}

pub struct RaftNodeView {
    pub id: u64,
    pub current_term: u64,
    pub voted_for: Option<u64>,
    pub last_included_index: u64,
    pub last_included_term: u64,
    pub log: Seq<LogEntryView>,
    pub state: NodeState,
    pub commit_index: usize,
    pub last_applied: usize,
    pub next_index: Map<u64, usize>,
    pub match_index: Map<u64, usize>,
    pub peers: Seq<u64>,
    pub votes_received: Set<u64>,
    pub leader_id: Option<u64>,
}

impl RaftNodeView {
    /// The shape every operation relies on: a non-empty log (index 0 is the
    /// snapshot sentinel) whose logical indices, and the one after the last,
    /// fit in a `u64`.
    pub open spec fn wf(self) -> bool {
        &&& self.log.len() >= 1
        &&& self.last_included_index + self.log.len() <= u64::MAX
        &&& self.commit_index < u64::MAX
        &&& self.peers.len() < usize::MAX
    }

    pub open spec fn last_log_index(self) -> int {
        self.last_included_index + self.log.len() - 1
    }

    pub open spec fn last_log_term(self) -> u64 {
        if self.log.len() == 0 {
            0
        } else {
            self.log.last().term
        }
    }

    /// Term of the entry at logical index `n`.
    pub open spec fn term_at(self, n: int) -> u64 {
        self.log[n - self.last_included_index].term
    }

    /// Section 5.4.1: a log ending in (`idx`, `term`) is at least as up to date as ours.
    pub open spec fn other_log_up_to_date(self, idx: u64, term: u64) -> bool {
        if term != self.last_log_term() {
            term > self.last_log_term()
        } else {
            idx >= self.last_log_index()
        }
    }

    pub open spec fn majority(self) -> int {
        ((self.peers.len() + 1) / 2 + 1) as int
    }

    pub open spec fn next_of(self, peer: u64) -> usize {
        if self.next_index.contains_key(peer) {
            self.next_index[peer]
        } else {
            1
        }
    }

    /// Every peer's next index lies within the log or just past its end,
    /// so that a message can be built for it.
    pub open spec fn next_indices_in_range(self) -> bool {
        forall|i: int|
            0 <= i < self.peers.len() ==> #[trigger] self.next_of(self.peers[i]) <= self.last_log_index() + 1
    }

    /// Revert to follower at `term`; the vote is kept within its term and
    /// forgotten when the term moves on.
    pub open spec fn become_follower(self, term: u64) -> RaftNodeView {
        RaftNodeView {
            state: NodeState::Follower,
            current_term: term,
            voted_for: if term == self.current_term {
                self.voted_for
            } else {
                None
            },
            leader_id: None,
            votes_received: Set::empty(),
            ..self
        }
    }

    /// The message that brings `peer`, whose next index is `next`, up to date.
    pub open spec fn message_for(self, peer: u64, next: usize) -> OutboundMsgView {
        if next <= self.last_included_index {
            OutboundMsgView::InstallSnapshot {
                to: peer,
                args: InstallSnapshotArgsView {
                    term: self.current_term,
                    leader_id: self.id,
                    last_included_index: self.last_included_index,
                    last_included_term: self.last_included_term,
                    data: Seq::empty(),
                },
            }
        } else {
            let from = next - self.last_included_index;
            OutboundMsgView::AppendEntries {
                to: peer,
                args: AppendEntriesArgsView {
                    term: self.current_term,
                    leader_id: self.id,
                    prev_log_index: (next - 1) as u64,
                    prev_log_term: self.term_at(next - 1),
                    entries: if from < self.log.len() { self.log.skip(from) } else { Seq::empty() },
                    leader_commit: self.commit_index as u64,
                },
            }
        }
    }

    pub open spec fn broadcast(self) -> Seq<OutboundMsgView> {
        self.peers.map_values(|p: u64| self.message_for(p, self.next_of(p)))
    }

    pub open spec fn committable(self, n: int) -> bool {
        &&& self.term_at(n) == self.current_term
        &&& count_at_least(self.match_index, n as usize) + 1 >= self.majority()
    }

    /// `n` is the largest index in `lo..=hi` that may be committed.
    pub open spec fn is_highest_committable(self, lo: int, hi: int, n: int) -> bool {
        &&& lo <= n <= hi
        &&& self.committable(n)
        &&& forall|m: int| n < m <= hi ==> !#[trigger] self.committable(m)
    }

    /// The largest index in `lo..=hi` that may be committed, if there is one.
    pub open spec fn highest_committable(self, lo: int, hi: int) -> Option<int> {
        if exists|n: int| self.is_highest_committable(lo, hi, n) {
            Some(choose|n: int| self.is_highest_committable(lo, hi, n))
        } else {
            None
        }
    }

    pub open spec fn commit_scan_start(self) -> int {
        let a = self.commit_index + 1;
        let b = self.last_included_index + 1;
        if a > b {
            a
        } else {
            b
        }
    }

    /// Section 5.3/5.4.2: commit the highest entry of the current term that a
    /// majority (this node included) holds.
    pub open spec fn advance_commit(self) -> RaftNodeView {
        match self.highest_committable(self.commit_scan_start(), self.last_log_index()) {
            Some(n) => RaftNodeView { commit_index: n as usize, ..self },
            None => self,
        }
    }

    pub open spec fn become_leader(self) -> (RaftNodeView, Seq<OutboundMsgView>) {
        let next = (self.last_log_index() + 1) as usize;
        let v = RaftNodeView {
            state: NodeState::Leader,
            leader_id: Some(self.id),
            next_index: self.next_index.union_prefer_right(
                Map::new(|k: u64| self.peers.contains(k), |k: u64| next),
            ),
            match_index: self.match_index.union_prefer_right(
                Map::new(|k: u64| self.peers.contains(k), |k: u64| 0usize),
            ),
            ..self
        };
        (v, v.broadcast())
    }

    pub open spec fn start_election(self) -> (RaftNodeView, Seq<OutboundMsgView>) {
        let v = RaftNodeView {
            state: NodeState::Candidate,
            current_term: (self.current_term + 1) as u64,
            voted_for: Some(self.id),
            votes_received: set![self.id],
            ..self
        };
        if 1 >= v.majority() {
            v.become_leader()
        } else {
            let args = RequestVoteArgs {
                term: v.current_term,
                candidate_id: self.id,
                last_log_index: self.last_log_index() as u64,
                last_log_term: self.last_log_term(),
            };
            (v, self.peers.map_values(|p: u64| OutboundMsgView::RequestVote { to: p, args }))
        }
    }

    pub open spec fn request_vote(self, args: RequestVoteArgs) -> (RaftNodeView, RequestVoteReply) {
        let v = if args.term > self.current_term {
            self.become_follower(args.term)
        } else {
            self
        };
        let granted = args.term >= v.current_term && (v.voted_for is None || v.voted_for
            == Some(args.candidate_id)) && v.other_log_up_to_date(
            args.last_log_index,
            args.last_log_term,
        );
        let v2 = if granted {
            RaftNodeView { voted_for: Some(args.candidate_id), ..v }
        } else {
            v
        };
        (v2, RequestVoteReply { term: v2.current_term, vote_granted: granted })
    }

    /// Whether a vote reply makes this candidate count a new vote.
    pub open spec fn vote_counts(self, reply: RequestVoteReply) -> bool {
        &&& reply.term <= self.current_term
        &&& self.state == NodeState::Candidate
        &&& reply.term == self.current_term
        &&& reply.vote_granted
    }

    pub open spec fn request_vote_reply(self, from: u64, reply: RequestVoteReply) -> (
        RaftNodeView,
        Seq<OutboundMsgView>,
    ) {
        if reply.term > self.current_term {
            (self.become_follower(reply.term), Seq::empty())
        } else if !self.vote_counts(reply) {
            (self, Seq::empty())
        } else {
            let v = RaftNodeView { votes_received: self.votes_received.insert(from), ..self };
            if v.votes_received.len() >= v.majority() {
                v.become_leader()
            } else {
                (v, Seq::empty())
            }
        }
    }

    /// Whether an AppendEntries call is accepted (returns success).
    pub open spec fn append_accepted(self, args: AppendEntriesArgsView) -> bool {
        &&& args.term >= self.current_term
        &&& args.prev_log_index >= self.last_included_index
        &&& self.prev_physical(args) < self.log.len()
        &&& self.log[self.prev_physical(args) as int].term == args.prev_log_term
    }

    /// Physical index of an AppendEntries call's `prev_log_index`.
    pub open spec fn prev_physical(self, args: AppendEntriesArgsView) -> usize {
        (args.prev_log_index - self.last_included_index) as usize
    }

    pub open spec fn append_entries(self, args: AppendEntriesArgsView) -> (RaftNodeView, AppendEntriesReply) {
        if args.term < self.current_term {
            (self, AppendEntriesReply { term: self.current_term, success: false, match_index: 0 })
        } else {
            let v1 = if args.term > self.current_term || self.state != NodeState::Follower {
                self.become_follower(args.term)
            } else {
                self
            };
            let v = RaftNodeView { leader_id: Some(args.leader_id), ..v1 };
            if !self.append_accepted(args) {
                (v, AppendEntriesReply { term: v.current_term, success: false, match_index: 0 })
            } else {
                let start = self.prev_physical(args) + 1;
                let log = merge_entries(v.log, start, args.entries);
                let last = (self.last_included_index + log.len() - 1) as u64;
                let commit = if args.leader_commit > v.commit_index as u64 {
                    let a = args.leader_commit as usize;
                    let b = last as usize;
                    if a <= b {
                        a
                    } else {
                        b
                    }
                } else {
                    v.commit_index
                };
                (
                    RaftNodeView { log, commit_index: commit, ..v },
                    AppendEntriesReply {
                        term: v.current_term,
                        success: true,
                        match_index: (args.prev_log_index + args.entries.len()) as u64,
                    },
                )
            }
        }
    }

    /// The machine limits an accepted AppendEntries must respect: the new last
    /// index and the index after it fit in a `u64`, and so does the match index
    /// of the reply.
    pub open spec fn append_fits(self, args: AppendEntriesArgsView) -> bool {
        &&& self.last_included_index + self.prev_physical(args) + args.entries.len() < u64::MAX
        &&& args.prev_log_index + args.entries.len() <= u64::MAX
    }

    /// What a reply to our AppendEntries must allow: a match index whose
    /// successor fits in a `usize`, or, on a rejection, a next index from which
    /// a message can be built.
    pub open spec fn append_reply_fits(self, from: u64, reply: AppendEntriesReply) -> bool {
        (reply.term == self.current_term && self.state == NodeState::Leader) ==> if reply.success {
            (reply.match_index as usize) < usize::MAX
        } else {
            self.backed_off_next(from) <= self.last_log_index() + 1
        }
    }

    /// Whether an InstallSnapshot call replaces the log by the snapshot.
    pub open spec fn installs(self, args: InstallSnapshotArgsView) -> bool {
        args.term >= self.current_term && args.last_included_index > self.last_included_index
    }

    /// The node with `command` appended to its log as an entry of the current term.
    pub open spec fn with_proposal(self, command: CommandView) -> RaftNodeView {
        RaftNodeView {
            log: self.log.push(LogEntryView { term: self.current_term, command }),
            ..self
        }
    }

    /// What a leader's proposal must allow: room for one more index, and every
    /// peer's next index within the grown log.
    pub open spec fn proposal_fits(self, command: CommandView) -> bool {
        self.state == NodeState::Leader ==> {
            &&& self.last_included_index + self.log.len() < u64::MAX
            &&& self.with_proposal(command).next_indices_in_range()
        }
    }

    /// The next index a rejected AppendEntries leaves for `from`.
    pub open spec fn backed_off_next(self, from: u64) -> usize {
        let n = self.next_of(from);
        if n > 1 {
            (n - 1) as usize
        } else {
            n
        }
    }

    pub open spec fn append_entries_reply(self, from: u64, reply: AppendEntriesReply) -> (
        RaftNodeView,
        Seq<OutboundMsgView>,
    ) {
        if reply.term > self.current_term {
            (self.become_follower(reply.term), Seq::empty())
        } else if self.state != NodeState::Leader || reply.term < self.current_term {
            (self, Seq::empty())
        } else if reply.success {
            let mi = reply.match_index as usize;
            let v = RaftNodeView {
                match_index: self.match_index.insert(from, mi),
                next_index: self.next_index.insert(from, (mi + 1) as usize),
                ..self
            };
            (v.advance_commit(), Seq::empty())
        } else {
            let n = self.backed_off_next(from);
            let v = RaftNodeView { next_index: self.next_index.insert(from, n), ..self };
            (v, seq![v.message_for(from, n)])
        }
    }

    pub open spec fn install_snapshot(self, args: InstallSnapshotArgsView) -> (RaftNodeView, InstallSnapshotReply) {
        if args.term < self.current_term {
            (self, InstallSnapshotReply { term: self.current_term })
        } else {
            let v1 = if args.term > self.current_term || self.state != NodeState::Follower {
                self.become_follower(args.term)
            } else {
                self
            };
            let v = RaftNodeView { leader_id: Some(args.leader_id), ..v1 };
            if args.last_included_index <= v.last_included_index {
                (v, InstallSnapshotReply { term: v.current_term })
            } else {
                (
                    RaftNodeView {
                        last_included_index: args.last_included_index,
                        last_included_term: args.last_included_term,
                        log: seq![sentinel(args.last_included_term)],
                        commit_index: args.last_included_index as usize,
                        ..v
                    },
                    InstallSnapshotReply { term: v.current_term },
                )
            }
        }
    }

    pub open spec fn install_snapshot_reply(self, from: u64, reply: InstallSnapshotReply) -> RaftNodeView {
        if reply.term > self.current_term {
            self.become_follower(reply.term)
        } else if self.state != NodeState::Leader || reply.term < self.current_term {
            self
        } else {
            RaftNodeView {
                match_index: self.match_index.insert(from, self.last_included_index as usize),
                next_index: self.next_index.insert(from, (self.last_included_index + 1) as usize),
                ..self
            }.advance_commit()
        }
    }

    /// Whether `compact_log(up_to)` replaces a prefix of the log by a snapshot.
    pub open spec fn compacts(self, up_to: u64) -> bool {
        self.last_included_index < up_to && up_to <= self.commit_index
    }

    pub open spec fn compact_log(self, up_to: u64) -> RaftNodeView {
        if !self.compacts(up_to) {
            self
        } else {
            let p = up_to - self.last_included_index;
            let term = self.log[p].term;
            RaftNodeView {
                log: seq![sentinel(term)] + self.log.skip(p + 1),
                last_included_index: up_to,
                last_included_term: term,
                ..self
            }
        }
    }

    pub open spec fn propose(self, command: CommandView) -> (RaftNodeView, u64, Seq<OutboundMsgView>) {
        let v = self.with_proposal(command);
        (v.advance_commit(), v.last_log_index() as u64, v.broadcast())
    }

    pub open spec fn heartbeats(self) -> Seq<OutboundMsgView> {
        if self.state != NodeState::Leader {
            Seq::empty()
        } else {
            self.broadcast()
        }
    }

    /// The index from which `apply_committed` goes on applying.
    pub open spec fn apply_start(self) -> int {
        if self.last_applied < self.last_included_index {
            (self.last_included_index as usize) as int
        } else {
            self.last_applied as int
        }
    }

    /// What applying the committed entries needs: each of them is in the log.
    pub open spec fn apply_fits(self) -> bool {
        self.apply_start() < self.commit_index ==> {
            &&& self.last_included_index <= self.apply_start()
            &&& self.commit_index <= self.last_log_index()
        }
    }

    /// The highest applied index once the committed entries are applied.
    pub open spec fn applied_through(self) -> usize {
        if self.apply_start() < self.commit_index {
            self.commit_index
        } else {
            self.apply_start() as usize
        }
    }

    /// The committed entries not yet applied, in log order.
    pub open spec fn entries_to_apply(self) -> Seq<LogEntryView> {
        if self.apply_start() < self.commit_index {
            self.log.subrange(
                self.apply_start() + 1 - self.last_included_index,
                self.commit_index + 1 - self.last_included_index,
            )
        } else {
            Seq::empty()
        }
    }
}

/// What applying one command does to the key-value map.
pub open spec fn apply_command(m: Map<Seq<char>, Seq<char>>, c: CommandView) -> Map<Seq<char>, Seq<char>> {
    match c {
        CommandView::Put { key, value } => m.insert(key, value),
        CommandView::Delete { key } => m.remove(key),
    }
}

/// What applying a sequence of entries, in order, does to the key-value map.
pub open spec fn apply_entries(m: Map<Seq<char>, Seq<char>>, es: Seq<LogEntryView>) -> Map<Seq<char>, Seq<char>>
    decreases es.len(),
{
    if es.len() == 0 {
        m
    } else {
        apply_command(apply_entries(m, es.drop_last()), es.last().command)
    }
}

} // verus!
