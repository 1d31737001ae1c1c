//! Properties that hold of every Raft node across its operations, proved over
//! the transitions of `raft_model` that the handlers of `RaftNode` follow.
use vstd::prelude::*;

use crate::raft::{AppendEntriesReply, InstallSnapshotReply, NodeState, RequestVoteArgs, RequestVoteReply};
use crate::raft_model::{
    count_at_least, merge_entries, first_mismatch, sentinel, AppendEntriesArgsView, CommandView,
    InstallSnapshotArgsView, LogEntryView, OutboundMsgView, RaftNodeView,
};

verus! {

/// Everything that can happen to a node.
pub enum Event {
    ElectionTimeout,
    RequestVote(RequestVoteArgs),
    RequestVoteReply(u64, RequestVoteReply),
    AppendEntries(AppendEntriesArgsView),
    AppendEntriesReply(u64, AppendEntriesReply),
    InstallSnapshot(InstallSnapshotArgsView),
    InstallSnapshotReply(u64, InstallSnapshotReply),
    CompactLog(u64),
    Propose(CommandView),
    ApplyCommitted,
}

impl RaftNodeView {
    /// The node after the handler of `e` ran.
    pub open spec fn step(self, e: Event) -> RaftNodeView {
        match e {
            Event::ElectionTimeout => self.start_election().0,
            Event::RequestVote(args) => self.request_vote(args).0,
            Event::RequestVoteReply(from, reply) => self.request_vote_reply(from, reply).0,
            Event::AppendEntries(args) => self.append_entries(args).0,
            Event::AppendEntriesReply(from, reply) => self.append_entries_reply(from, reply).0,
            Event::InstallSnapshot(args) => self.install_snapshot(args).0,
            Event::InstallSnapshotReply(from, reply) => self.install_snapshot_reply(from, reply),
            Event::CompactLog(up_to) => self.compact_log(up_to),
            Event::Propose(command) => if self.state == NodeState::Leader {
                self.propose(command).0
            } else {
                self
            },
            Event::ApplyCommitted => RaftNodeView { last_applied: self.applied_through(), ..self },
        }
    }

    /// What the handler of `e` requires beyond `wf`.
    pub open spec fn step_allowed(self, e: Event) -> bool {
        match e {
            Event::ElectionTimeout => self.current_term < u64::MAX,
            Event::AppendEntries(args) => self.append_accepted(args) ==> self.append_fits(args),
            Event::AppendEntriesReply(from, reply) => self.append_reply_fits(from, reply),
            Event::InstallSnapshot(args) => self.installs(args) ==> args.last_included_index < u64::MAX,
            Event::CompactLog(up_to) => self.compacts(up_to) ==> up_to <= self.last_log_index(),
            Event::Propose(command) => self.proposal_fits(command),
            Event::ApplyCommitted => self.apply_fits(),
            _ => true,
        }
    }

    /// `log[0]` is the sentinel of the snapshot point.
    pub open spec fn sentinel_in_place(self) -> bool {
        self.log.len() >= 1 && self.log[0] == sentinel(self.last_included_term)
    }

    /// The entry at logical index `n`.
    pub open spec fn entry_at(self, n: int) -> LogEntryView {
        self.log[n - self.last_included_index]
    }
}

impl RaftNodeView {
    /// Whether `e` moves the commit index on: a successful AppendEntries
    /// reply or an InstallSnapshot reply of the current term reaching a
    /// leader, or a leader's proposal.
    pub open spec fn moves_commit(self, e: Event) -> bool {
        match e {
            Event::AppendEntriesReply(_, reply) => self.state == NodeState::Leader && reply.term
                == self.current_term && reply.success,
            Event::InstallSnapshotReply(_, reply) => self.state == NodeState::Leader && reply.term
                == self.current_term,
            Event::Propose(_) => self.state == NodeState::Leader,
            _ => false,
        }
    }

    /// For such an operation, the node just before its commit index moves:
    /// with the peer's progress recorded, or with the proposed entry appended.
    pub open spec fn before_commit(self, e: Event) -> RaftNodeView {
        match e {
            Event::AppendEntriesReply(from, reply) => {
                let mi = reply.match_index as usize;
                RaftNodeView {
                    match_index: self.match_index.insert(from, mi),
                    next_index: self.next_index.insert(from, (mi + 1) as usize),
                    ..self
                }
            },
            Event::InstallSnapshotReply(from, _) => RaftNodeView {
                match_index: self.match_index.insert(from, self.last_included_index as usize),
                next_index: self.next_index.insert(from, (self.last_included_index + 1) as usize),
                ..self
            },
            Event::Propose(command) => self.with_proposal(command),
            _ => self,
        }
    }
}

/// An operation that moves the commit index on records progress (or appends
/// the proposed entry) and then runs `advance_commit`, which changes only the
/// commit index, and does not lower it while indexes fit in a `usize`.
pub proof fn lemma_commit_moves(v: RaftNodeView, e: Event)
    ensures
        v.moves_commit(e) ==> v.step(e) == v.before_commit(e).advance_commit(),
        v.before_commit(e).advance_commit() == (RaftNodeView {
            commit_index: v.before_commit(e).advance_commit().commit_index,
            ..v.before_commit(e)
        }),
        v.before_commit(e) == (RaftNodeView {
            match_index: v.before_commit(e).match_index,
            next_index: v.before_commit(e).next_index,
            log: v.before_commit(e).log,
            ..v
        }),
        (e matches Event::Propose(c) && v.before_commit(e) == v.with_proposal(c)) || v.before_commit(
            e,
        ).log == v.log,
        v.before_commit(e).last_log_index() <= usize::MAX ==> v.before_commit(e).advance_commit().commit_index
            >= v.commit_index,
{
    let w = v.before_commit(e);
    lemma_highest_committable(w, w.commit_scan_start(), w.last_log_index());
}

/// The highest committable index lies in its range and can be committed.
proof fn lemma_highest_committable(v: RaftNodeView, lo: int, hi: int)
    ensures
        v.highest_committable(lo, hi) matches Some(n) ==> lo <= n <= hi && v.committable(n),
{
}

/// A node's term never decreases: every operation keeps it or raises it.
pub proof fn law_term_never_decreases(v: RaftNodeView, e: Event)
    requires
        v.wf(),
        v.step_allowed(e),
    ensures
        v.step(e).current_term >= v.current_term,
{
    lemma_commit_moves(v, e);
}

/// One vote per term: within a term, a node keeps the vote it gave; no
/// operation that leaves the term unchanged moves the vote to another
/// candidate or clears it.
pub proof fn law_vote_kept_within_term(v: RaftNodeView, e: Event, c: u64)
    requires
        v.wf(),
        v.step_allowed(e),
        v.voted_for == Some(c),
        v.step(e).current_term == v.current_term,
    ensures
        v.step(e).voted_for == Some(c),
{
    law_term_never_decreases(v, e);
    lemma_commit_moves(v, e);
}

/// Section 5.4.1: a vote is granted only to a candidate whose log is at least
/// as up to date as the voter's, and never to a second candidate in a term.
pub proof fn law_vote_granted_safely(v: RaftNodeView, args: RequestVoteArgs)
    requires
        v.wf(),
    ensures
        v.request_vote(args).1.vote_granted ==> {
            &&& v.other_log_up_to_date(args.last_log_index, args.last_log_term)
            &&& args.term >= v.current_term
            &&& v.request_vote(args).0.voted_for == Some(args.candidate_id)
        },
        v.request_vote(args).1.vote_granted && args.term == v.current_term && v.voted_for is Some
            ==> v.voted_for == Some(args.candidate_id),
{
}

/// A node becomes leader only with the votes of a majority of the cluster.
pub proof fn law_leader_elected_by_majority(v: RaftNodeView, e: Event)
    requires
        v.wf(),
        v.step_allowed(e),
        v.state != NodeState::Leader,
        v.step(e).state == NodeState::Leader,
    ensures
        v.step(e).votes_received.len() >= v.step(e).majority(),
{
    match e {
        Event::ElectionTimeout => {
            let w = v.start_election().0;
            assert(w.votes_received == set![v.id]);
            assert(set![v.id].len() == 1) by {
                assert(set![v.id] =~= Set::<u64>::empty().insert(v.id));
            }
        },
        Event::AppendEntriesReply(from, reply) => {},
        Event::InstallSnapshotReply(from, reply) => {},
        Event::Propose(command) => {},
        _ => {},
    }
}

/// Leader commit rule (sections 5.3 and 5.4.2): when a leader's commit index
/// moves, it moves up, onto an entry of the current term that a majority holds.
pub proof fn law_commit_only_current_term_majority(v: RaftNodeView)
    requires
        v.wf(),
        v.last_log_index() <= usize::MAX,
    ensures
        v.advance_commit().commit_index != v.commit_index ==> {
            &&& v.advance_commit().commit_index > v.commit_index
            &&& v.advance_commit().commit_index <= v.last_log_index()
            &&& v.committable(v.advance_commit().commit_index as int)
        },
{
    lemma_highest_committable(v, v.commit_scan_start(), v.last_log_index());
}

/// After an AppendEntries, the last index of the log still fits in a `u64`.
proof fn lemma_step_log_in_range(v: RaftNodeView, e: Event)
    requires
        v.wf(),
        v.step_allowed(e),
    ensures
        e is AppendEntries ==> v.step(e).last_log_index() < u64::MAX,
{
    if let Event::AppendEntries(args) = e {
        if args.term >= v.current_term && v.append_accepted(args) {
            let start = v.prev_physical(args) + 1;
            if exists|j: int| first_mismatch(v.log, start, args.entries, j) {
                let j = choose|j: int| first_mismatch(v.log, start, args.entries, j);
                assert(start + j <= v.log.len()) by {
                    if j > 0 {
                        let i: int = j - 1;
                        let x = args.entries[i];
                    }
                }
                assert(merge_entries(v.log, start, args.entries).len() == start + args.entries.len());
            }
        }
    }
}

/// What is committed stays committed: no operation lowers the commit index,
/// with two exceptions, which a leader that holds every committed entry never
/// causes: an AppendEntries after which the log ends before the commit index,
/// and an InstallSnapshot whose snapshot point lies below it. This is stated
/// for a 64-bit machine, where every `u64` index fits in a `usize`.
pub proof fn law_commit_never_decreases(v: RaftNodeView, e: Event)
    requires
        v.wf(),
        v.step_allowed(e),
        usize::MAX == u64::MAX,
        e matches Event::AppendEntries(args) ==> v.commit_index <= v.step(e).last_log_index(),
        e matches Event::InstallSnapshot(args) ==> !(v.installs(args) && args.last_included_index
            < v.commit_index),
    ensures
        v.step(e).commit_index >= v.commit_index,
{
    lemma_commit_moves(v, e);
    lemma_step_log_in_range(v, e);
}

/// Leader append-only (figure 3 of the Raft paper): while a node stays leader
/// of the same term, no operation overwrites or deletes an entry of its log.
/// The log only grows at its end; a compaction moves the snapshot point
/// forward and keeps every entry after it.
pub proof fn law_leader_append_only(v: RaftNodeView, e: Event)
    requires
        v.wf(),
        v.step_allowed(e),
        v.state == NodeState::Leader,
        v.step(e).state == NodeState::Leader,
        v.step(e).current_term == v.current_term,
    ensures
        v.step(e).last_included_index >= v.last_included_index,
        v.step(e).last_log_index() >= v.last_log_index(),
        forall|n: int|
            v.step(e).last_included_index < n <= v.last_log_index() ==> #[trigger] v.step(e).entry_at(n)
                == v.entry_at(n),
{
    lemma_commit_moves(v, e);
    match e {
        Event::Propose(command) => {
            let w = v.with_proposal(command);
            assert forall|n: int|
                v.step(e).last_included_index < n <= v.last_log_index() implies #[trigger] v.step(
                e,
            ).entry_at(n) == v.entry_at(n) by {
                assert(w.log[n - v.last_included_index] == v.log[n - v.last_included_index]);
            }
        },
        Event::CompactLog(up_to) => {
            if v.compacts(up_to) {
                let p = up_to - v.last_included_index;
                let w = v.step(e);
                assert forall|n: int| w.last_included_index < n <= v.last_log_index() implies #[trigger] w.entry_at(
                    n,
                ) == v.entry_at(n) by {
                    assert(w.log[n - up_to] == v.log.skip(p + 1)[n - up_to - 1]);
                }
            }
        },
        _ => {},
    }
}

/// The snapshot point is always committed: from a node whose log starts with
/// the sentinel of its snapshot point and whose snapshot point is at or below
/// its commit index, every operation leads to a node of which both still hold.
/// This is stated for a 64-bit machine, where every `u64` index fits in a
/// `usize`; on a narrower one the handlers' `as usize` casts may cut an index.
pub proof fn law_snapshot_point_committed(v: RaftNodeView, e: Event)
    requires
        v.wf(),
        v.step_allowed(e),
        v.sentinel_in_place(),
        v.last_included_index <= v.commit_index,
        usize::MAX == u64::MAX,
    ensures
        v.step(e).sentinel_in_place(),
        v.step(e).last_included_index <= v.step(e).commit_index,
{
    law_sentinel_kept(v, e);
    lemma_commit_moves(v, e);
    lemma_step_log_in_range(v, e);
}

/// An accepted AppendEntries keeps every entry up to `prev_log_index`, and
/// afterwards each position the leader sent holds an entry of the leader's
/// term for it (entries that already agree in term are kept, the rest of the
/// log is replaced from the first disagreement on).
pub proof fn law_append_keeps_prefix_and_matches_leader(v: RaftNodeView, args: AppendEntriesArgsView)
    requires
        v.wf(),
        v.append_accepted(args),
    ensures
        ({
            let start = v.prev_physical(args) + 1;
            let log = v.append_entries(args).0.log;
            &&& log.len() >= start + args.entries.len()
            &&& log.take(start) == v.log.take(start)
            &&& forall|i: int|
                0 <= i < args.entries.len() ==> #[trigger] log[start + i].term == args.entries[i].term
        }),
{
    let start = v.prev_physical(args) + 1;
    let log = merge_entries(v.log, start, args.entries);
    assert(v.append_entries(args).0.log == log);
    if exists|j: int| first_mismatch(v.log, start, args.entries, j) {
        let j = choose|j: int| first_mismatch(v.log, start, args.entries, j);
        assert(start + j <= v.log.len()) by {
            if j > 0 {
                let i: int = j - 1;
                let e = args.entries[i];
                assert(start + i < v.log.len());
            }
        }
        assert(log.take(start) =~= v.log.take(start));
        assert forall|i: int| 0 <= i < args.entries.len() implies #[trigger] log[start + i].term
            == args.entries[i].term by {
            if i >= j {
                assert(log[start + i] == args.entries.skip(j)[i - j]);
            } else {
                let e = args.entries[i];
                assert(start + i < v.log.len() && v.log[start + i].term == e.term);
            }
        }
    } else {
        assert forall|i: int| 0 <= i < args.entries.len() implies start + i < v.log.len()
            && v.log[start + i].term == (#[trigger] args.entries[i]).term by {
            if !(start + i < v.log.len() && v.log[start + i].term == args.entries[i].term) {
                // The first position that disagrees would be a first mismatch.
                let bad = |k: int| 0 <= k < args.entries.len() && !(start + k < v.log.len() && v.log[start + k].term == args.entries[k].term);
                assert(bad(i));
                let k0 = lemma_least(bad, i);
                assert forall|k: int| 0 <= k < k0 implies start + k < v.log.len() && v.log[start + k].term
                    == (#[trigger] args.entries[k]).term by {
                    assert(!bad(k));
                }
                assert(first_mismatch(v.log, start, args.entries, k0));
            }
        }
        if args.entries.len() > 0 {
            let last: int = args.entries.len() - 1;
            let e = args.entries[last];
            assert(start + last < v.log.len());
        }
        assert(log.len() >= start + args.entries.len());
    }
}


/// `log[0]` always stands for the snapshot: every operation keeps the sentinel
/// of the snapshot point at physical index 0.
pub proof fn law_sentinel_kept(v: RaftNodeView, e: Event)
    requires
        v.wf(),
        v.step_allowed(e),
        v.sentinel_in_place(),
    ensures
        v.step(e).sentinel_in_place(),
{
    lemma_commit_moves(v, e);
    match e {
        Event::AppendEntries(args) => {
            if args.term >= v.current_term && v.append_accepted(args) {
                let start = v.prev_physical(args) + 1;
                if exists|j: int| first_mismatch(v.log, start, args.entries, j) {
                    let j = choose|j: int| first_mismatch(v.log, start, args.entries, j);
                    assert(start + j <= v.log.len()) by {
                        if j > 0 {
                            let i: int = j - 1;
                            let x = args.entries[i];
                        }
                    }
                    let log = v.log.take(start + j) + args.entries.skip(j);
                    assert(log[0] == v.log[0]);
                }
            }
        },
        _ => {},
    }
}

/// Compaction keeps the end of the log: the last index and every entry after
/// the new snapshot point stay as they were, and the snapshot point takes the
/// term of the entry it replaces.
pub proof fn law_compaction_keeps_log_end(v: RaftNodeView, up_to: u64)
    requires
        v.wf(),
        v.compacts(up_to),
        up_to <= v.last_log_index(),
    ensures
        ({
            let w = v.compact_log(up_to);
            &&& w.last_log_index() == v.last_log_index()
            &&& w.last_included_index == up_to
            &&& w.last_included_term == v.term_at(up_to as int)
            &&& w.log.skip(1) == v.log.skip(up_to - v.last_included_index + 1)
            &&& w.commit_index == v.commit_index
        }),
{
    let p = up_to - v.last_included_index;
    let w = v.compact_log(up_to);
    assert(w.log.skip(1) =~= v.log.skip(p + 1));
}

/// A newer snapshot from a current leader replaces the log, and everything it
/// covers counts as committed.
pub proof fn law_install_snapshot_commits(v: RaftNodeView, args: InstallSnapshotArgsView)
    requires
        v.wf(),
        v.installs(args),
    ensures
        ({
            let w = v.install_snapshot(args).0;
            &&& w.last_included_index == args.last_included_index
            &&& w.last_included_term == args.last_included_term
            &&& w.log == seq![sentinel(args.last_included_term)]
            &&& w.commit_index == args.last_included_index as usize
            &&& w.state == NodeState::Follower
            &&& w.leader_id == Some(args.leader_id)
        }),
{
}

/// A leader's proposal appends exactly one entry, of the current term, to its
/// log and reports its index.
pub proof fn law_propose_appends(v: RaftNodeView, command: CommandView)
    requires
        v.wf(),
        v.proposal_fits(command),
        v.state == NodeState::Leader,
    ensures
        v.propose(command).0.log == v.log.push(LogEntryView { term: v.current_term, command }),
        v.propose(command).1 == v.last_log_index() + 1,
        v.propose(command).0.current_term == v.current_term,
{
    lemma_commit_moves(v, Event::Propose(command));
}

/// The least `k` in `0..=i` with `p(k)`, given `p(i)`.
proof fn lemma_least(p: spec_fn(int) -> bool, i: int) -> (k: int)
    requires
        i >= 0,
        p(i),
    ensures
        0 <= k <= i,
        p(k),
        forall|j: int| 0 <= j < k ==> !#[trigger] p(j),
    decreases i,
{
    if i == 0 {
        0
    } else if exists|j: int| 0 <= j < i && #[trigger] p(j) {
        let j = choose|j: int| 0 <= j < i && #[trigger] p(j);
        lemma_least(p, j)
    } else {
        i
    }
}

/// Section 5.4.1: a vote goes only to a candidate whose log is at least as
/// up to date as the voter's: its last entry has a later term than the
/// voter's last entry, or the same term and an index at least as high.
pub proof fn law_vote_only_for_up_to_date_log(v: RaftNodeView, args: RequestVoteArgs)
    requires
        v.wf(),
    ensures
        v.request_vote(args).1.vote_granted ==> {
            let last_term = v.log[v.log.len() - 1].term;
            let last_index = v.last_included_index + v.log.len() - 1;
            ||| args.last_log_term > last_term
            ||| args.last_log_term == last_term && args.last_log_index >= last_index
        },
{
}

/// A follower accepts an AppendEntries only from a leader of its term or a
/// later one, and only when its log holds an entry of `prev_log_term` at
/// `prev_log_index`; its reply then claims a match exactly up to the last
/// entry sent, never beyond. (Stated for a 64-bit machine, where the
/// handler's `as usize` casts keep every index.)
pub proof fn law_append_reply_claims_only_what_was_sent(v: RaftNodeView, args: AppendEntriesArgsView)
    requires
        v.wf(),
        usize::MAX == u64::MAX,
        v.append_accepted(args) ==> v.append_fits(args),
    ensures
        v.append_entries(args).1.success ==> {
            &&& args.term >= v.current_term
            &&& args.prev_log_index >= v.last_included_index
            &&& args.prev_log_index - v.last_included_index < v.log.len()
            &&& v.log[args.prev_log_index - v.last_included_index].term == args.prev_log_term
            &&& v.append_entries(args).1.match_index == args.prev_log_index + args.entries.len()
        },
        v.append_entries(args).1.term == v.append_entries(args).0.current_term,
{
}

/// An election asks every peer for its vote in the next term, describing the
/// candidate's log by its last entry: the last logical index and that
/// entry's term.
pub proof fn law_election_asks_with_last_entry(v: RaftNodeView)
    requires
        v.wf(),
        v.current_term < u64::MAX,
    ensures
        ({
            let (w, msgs) = v.start_election();
            &&& w.current_term == v.current_term + 1
            &&& w.voted_for == Some(v.id)
            &&& w.state != NodeState::Leader ==> {
                &&& msgs.len() == v.peers.len()
                &&& forall|i: int|
                    0 <= i < msgs.len() ==> (#[trigger] msgs[i] matches OutboundMsgView::RequestVote {
                        to,
                        args,
                    } && to == v.peers[i] && args.term == v.current_term + 1 && args.candidate_id
                        == v.id && args.last_log_index == v.last_included_index + v.log.len() - 1
                        && args.last_log_term == v.log[v.log.len() - 1].term)
            }
        }),
{
}

/// Every AppendEntries a leader builds is of its term, names it, carries its
/// commit index, and starts right after the entry before the peer's next
/// index.
pub proof fn law_append_entries_carry_leader_commit(v: RaftNodeView, peer: u64, next: usize)
    ensures
        v.message_for(peer, next) matches OutboundMsgView::AppendEntries { to, args } ==> {
            &&& to == peer
            &&& args.term == v.current_term
            &&& args.leader_id == v.id
            &&& args.leader_commit == v.commit_index
            &&& args.prev_log_index + 1 == next
        },
{
}

/// A leader's heartbeats, and the messages of a proposal, go to every peer,
/// and each AppendEntries among them carries the leader's commit index.
pub proof fn law_leader_messages_carry_commit(v: RaftNodeView, command: CommandView)
    requires
        v.wf(),
        v.state == NodeState::Leader,
    ensures
        v.heartbeats().len() == v.peers.len(),
        forall|i: int|
            0 <= i < v.heartbeats().len() ==> (#[trigger] v.heartbeats()[i] matches OutboundMsgView::AppendEntries {
                to,
                args,
            } ==> to == v.peers[i] && args.leader_commit == v.commit_index && args.term
                == v.current_term),
        v.propose(command).2.len() == v.peers.len(),
        forall|i: int|
            0 <= i < v.propose(command).2.len() ==> (#[trigger] v.propose(command).2[i] matches OutboundMsgView::AppendEntries {
                to,
                args,
            } ==> to == v.peers[i] && args.leader_commit == v.commit_index && args.term
                == v.current_term),
{
    assert forall|i: int| 0 <= i < v.heartbeats().len() implies (#[trigger] v.heartbeats()[i] matches OutboundMsgView::AppendEntries {
        to,
        args,
    } ==> to == v.peers[i] && args.leader_commit == v.commit_index && args.term == v.current_term) by {
        law_append_entries_carry_leader_commit(v, v.peers[i], v.next_of(v.peers[i]));
    }
    let w = v.with_proposal(command);
    assert forall|i: int| 0 <= i < v.propose(command).2.len() implies (#[trigger] v.propose(command).2[i] matches OutboundMsgView::AppendEntries {
        to,
        args,
    } ==> to == v.peers[i] && args.leader_commit == v.commit_index && args.term == v.current_term) by {
        law_append_entries_carry_leader_commit(w, w.peers[i], w.next_of(w.peers[i]));
    }
}

/// If some index in `lo..=hi` may be committed, a largest one exists.
proof fn lemma_highest_exists(v: RaftNodeView, lo: int, hi: int, n: int)
    requires
        lo <= n <= hi,
        v.committable(n),
    ensures
        exists|m: int| v.is_highest_committable(lo, hi, m),
    decreases hi - n,
{
    if v.is_highest_committable(lo, hi, n) {
    } else {
        let m = choose|m: int| n < m <= hi && #[trigger] v.committable(m);
        lemma_highest_exists(v, lo, hi, m);
    }
}

/// Leader commit rule (sections 5.3 and 5.4.2), in full: after the commit
/// index moves on, no later index in the log holds an entry of the current
/// term that a majority (this node included) has replicated; the commit
/// index reaches the highest such entry.
pub proof fn law_commit_reaches_highest(v: RaftNodeView, m: int)
    requires
        v.wf(),
        v.last_log_index() <= usize::MAX,
        v.advance_commit().commit_index < m <= v.last_log_index(),
        v.last_included_index < m,
    ensures
        !(v.log[m - v.last_included_index].term == v.current_term && count_at_least(
            v.match_index,
            m as usize,
        ) + 1 >= (v.peers.len() + 1) / 2 + 1),
{
    let lo = v.commit_scan_start();
    let hi = v.last_log_index();
    if v.log[m - v.last_included_index].term == v.current_term && count_at_least(
        v.match_index,
        m as usize,
    ) + 1 >= (v.peers.len() + 1) / 2 + 1 {
        assert(v.committable(m));
        assert(m >= lo);
        lemma_highest_exists(v, lo, hi, m);
        let n = choose|n: int| v.is_highest_committable(lo, hi, n);
        assert(v.advance_commit().commit_index == n);
        assert(false);
    }
}

} // verus!
