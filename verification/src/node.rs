//! The decisions of a running node: its timers, the handling of an incoming
//! message, and what follows each message (applying committed entries,
//! answering waiting clients, compacting the log).
use rand::Rng;
use vstd::prelude::*;

use crate::raft::{Command, LogEntry, NodeState, OutboundMsg, RaftNode};
use crate::raft_model::{apply_entries, msgs_view, CommandView, LogEntryView, RaftNodeView};
use crate::wal::same_entry;
use crate::rpc::{ClientReply, ClientRequest, Envelope, RpcMessage};
use crate::store::KvStore;

verus! {

/// Granularity of the node's timer.
pub const TICK_MS: u32 = 10;

/// A leader sends heartbeats this often.
pub const HEARTBEAT_TIMEOUT_MS: u32 = 50;

/// Election timeouts are drawn from `ELECTION_TIMEOUT_MIN_MS..ELECTION_TIMEOUT_MAX_MS`.
pub const ELECTION_TIMEOUT_MIN_MS: u32 = 150;

/// Upper bound (exclusive) of the election timeouts.
pub const ELECTION_TIMEOUT_MAX_MS: u32 = 300;

/// A log longer than this is compacted up to the commit index.
pub const COMPACTION_THRESHOLD: usize = 20;

/// `rand::thread_rng().gen_range(lo..hi)`: a number drawn at random from
/// `lo..hi`. All that is claimed of it is that it lies in that range (the
/// method panics on an empty range, hence `lo < hi`).
#[verifier::external_body]
fn random_in_range(lo: u32, hi: u32) -> (t: u32)
    requires
        lo < hi,
    ensures
        lo <= t < hi,
{
    rand::thread_rng().gen_range(lo..hi)
}

/// A fresh randomized election timeout, so that elections rarely split.
fn gen_election_timeout() -> (t: u32)
    ensures
        ELECTION_TIMEOUT_MIN_MS <= t < ELECTION_TIMEOUT_MAX_MS,
{
    random_in_range(ELECTION_TIMEOUT_MIN_MS, ELECTION_TIMEOUT_MAX_MS)
}

/// What a timer tick calls for.
#[derive(Debug, Clone, Copy, PartialEq, Eq, Structural)]
pub enum TickAction {
    Idle,
    SendHeartbeats,
    StartElection,
}

/// The node's two timers: the election timeout of a follower or candidate,
/// and the heartbeat interval of a leader.
pub struct Timers {
    election_elapsed: u32,
    election_timeout: u32,
    heartbeat_elapsed: u32,
}

pub struct TimersView {
    pub election_elapsed: u32,
    pub election_timeout: u32,
    pub heartbeat_elapsed: u32,
}

impl View for Timers {
    type V = TimersView;

    closed spec fn view(&self) -> TimersView {
        TimersView {
            election_elapsed: self.election_elapsed,
            election_timeout: self.election_timeout,
            heartbeat_elapsed: self.heartbeat_elapsed,
        }
    }
}

impl TimersView {
    /// An election timeout is in range, the election timer has not yet run
    /// out, and the heartbeat timer is at most one interval.
    pub open spec fn valid(self) -> bool {
        &&& ELECTION_TIMEOUT_MIN_MS <= self.election_timeout < ELECTION_TIMEOUT_MAX_MS
        &&& self.election_elapsed < self.election_timeout
        &&& self.heartbeat_elapsed <= HEARTBEAT_TIMEOUT_MS
    }

    /// One tick of `TICK_MS`; `fresh_timeout` becomes the election timeout
    /// when the election timer runs out.
    pub open spec fn tick(self, is_leader: bool, fresh_timeout: u32) -> (TimersView, TickAction) {
        if is_leader {
            let hb = self.heartbeat_elapsed + TICK_MS;
            if hb >= HEARTBEAT_TIMEOUT_MS {
                (TimersView { heartbeat_elapsed: 0, ..self }, TickAction::SendHeartbeats)
            } else {
                (TimersView { heartbeat_elapsed: hb as u32, ..self }, TickAction::Idle)
            }
        } else {
            let e = self.election_elapsed + TICK_MS;
            if e >= self.election_timeout {
                (
                    TimersView { election_elapsed: 0, election_timeout: fresh_timeout, ..self },
                    TickAction::StartElection,
                )
            } else {
                (TimersView { election_elapsed: e as u32, ..self }, TickAction::Idle)
            }
        }
    }

    /// After a message: a new leader heartbeats at the next tick, and a node
    /// that heard from a leader or granted a vote restarts its election timer.
    pub open spec fn after_message(self, became_leader: bool, reset_election: bool) -> TimersView {
        TimersView {
            heartbeat_elapsed: if became_leader {
                HEARTBEAT_TIMEOUT_MS
            } else {
                self.heartbeat_elapsed
            },
            election_elapsed: if reset_election {
                0
            } else {
                self.election_elapsed
            },
            ..self
        }
    }
}

impl Timers {
    #[verifier::type_invariant]
    spec fn inv(self) -> bool {
        self@.valid()
    }

    /// Timers at rest, with a random election timeout.
    pub fn new() -> (r: Self)
        ensures
            r@.election_elapsed == 0,
            r@.heartbeat_elapsed == 0,
            ELECTION_TIMEOUT_MIN_MS <= r@.election_timeout < ELECTION_TIMEOUT_MAX_MS,
    {
        Timers { election_elapsed: 0, election_timeout: gen_election_timeout(), heartbeat_elapsed: 0 }
    }

    pub fn election_timeout(&self) -> (r: u32)
        ensures
            r == self@.election_timeout,
    {
        self.election_timeout
    }

    /// One tick, with `fresh_timeout` as the next election timeout should the
    /// election timer run out.
    pub fn tick_with(&mut self, is_leader: bool, fresh_timeout: u32) -> (r: TickAction)
        requires
            ELECTION_TIMEOUT_MIN_MS <= fresh_timeout < ELECTION_TIMEOUT_MAX_MS,
        ensures
            (final(self)@, r) == old(self)@.tick(is_leader, fresh_timeout),
            final(self)@.valid(),
    {
        proof {
            use_type_invariant(&*self);
        }
        if is_leader {
            let hb = self.heartbeat_elapsed + TICK_MS;
            if hb >= HEARTBEAT_TIMEOUT_MS {
                self.heartbeat_elapsed = 0;
                TickAction::SendHeartbeats
            } else {
                self.heartbeat_elapsed = hb;
                TickAction::Idle
            }
        } else {
            let e = self.election_elapsed + TICK_MS;
            if e >= self.election_timeout {
                self.election_elapsed = 0;
                self.election_timeout = fresh_timeout;
                TickAction::StartElection
            } else {
                self.election_elapsed = e;
                TickAction::Idle
            }
        }
    }

    /// One tick; when the election timer runs out it is restarted with a new
    /// random timeout.
    pub fn tick(&mut self, is_leader: bool) -> (r: TickAction)
        ensures
            exists|t: u32|
                ELECTION_TIMEOUT_MIN_MS <= t < ELECTION_TIMEOUT_MAX_MS && (final(self)@, r) == old(
                    self,
                )@.tick(is_leader, t),
            final(self)@.valid(),
    {
        proof {
            use_type_invariant(&*self);
        }
        let fresh = if !is_leader && self.election_elapsed + TICK_MS >= self.election_timeout {
            gen_election_timeout()
        } else {
            self.election_timeout
        };
        self.tick_with(is_leader, fresh)
    }

    /// Restart the timers after a message as `after_message` says.
    pub fn after_message(&mut self, became_leader: bool, reset_election: bool)
        ensures
            final(self)@ == old(self)@.after_message(became_leader, reset_election),
            final(self)@.valid(),
    {
        proof {
            use_type_invariant(&*self);
        }
        if became_leader {
            self.heartbeat_elapsed = HEARTBEAT_TIMEOUT_MS;
        }
        if reset_election {
            self.election_elapsed = 0;
        }
    }
}


/// What handling one message calls for besides the change to the node.
pub struct MessageOutcome {
    /// The direct answer to the sender: a reply envelope for a peer, or the
    /// answer to a client.
    pub reply: Option<RpcMessage>,
    /// Messages the state machine wants sent to peers.
    pub outbound: Vec<OutboundMsg>,
    /// Whether the election timer restarts (a leader was heard from, or a
    /// vote was granted).
    pub reset_election: bool,
    /// For an accepted client write: the entry it was appended as and that
    /// entry's index; the client is answered once that entry is committed there.
    pub pending: Option<PendingWrite>,
}

/// What a message asks of the machine limits (each handler's own condition).
pub open spec fn message_fits(v: RaftNodeView, msg: RpcMessage) -> bool {
    match msg {
        RpcMessage::AppendEntries(env) => v.append_accepted(env.payload@) ==> v.append_fits(
            env.payload@,
        ),
        RpcMessage::AppendEntriesReply(env) => v.append_reply_fits(env.from, env.payload),
        RpcMessage::InstallSnapshot(env) => v.installs(env.payload@)
            ==> env.payload.last_included_index < u64::MAX,
        RpcMessage::ClientRequest(ClientRequest::Put { key, value }) => v.proposal_fits(
            CommandView::Put { key: key@, value: value@ },
        ),
        RpcMessage::ClientRequest(ClientRequest::Delete { key }) => v.proposal_fits(
            CommandView::Delete { key: key@ },
        ),
        _ => true,
    }
}

/// A message that asks nothing of the node beyond what `after` says: no
/// reply, no pending client, no restart of the election timer.
pub open spec fn quiet(out: MessageOutcome) -> bool {
    &&& out.reply is None
    &&& !out.reset_election
    &&& out.pending is None
}

/// How a client write ends: a leader appends the command and the client
/// waits for its index; any other node names the leader it knows.
pub open spec fn proposal_outcome(
    v: RaftNodeView,
    c: CommandView,
    after: RaftNodeView,
    out: MessageOutcome,
) -> bool {
    if v.state == NodeState::Leader {
        let (w, index, msgs) = v.propose(c);
        &&& after == w
        &&& msgs_view(out.outbound@) == msgs
        &&& out.pending matches Some(p) && p.index == index && p.entry@ == (LogEntryView {
            term: v.current_term,
            command: c,
        })
        &&& out.reply is None
        &&& !out.reset_election
    } else {
        &&& after == v
        &&& out.outbound@.len() == 0
        &&& out.reply == Some(
            RpcMessage::ClientReply(ClientReply::NotLeader { leader_id: v.leader_id }),
        )
        &&& out.pending is None
        &&& !out.reset_election
    }
}

/// A read answers with the value the store holds for the key, if any.
pub open spec fn read_outcome(m: Map<Seq<char>, Seq<char>>, key: Seq<char>, out: MessageOutcome) -> bool {
    &&& out.outbound@.len() == 0
    &&& out.pending is None
    &&& !out.reset_election
    &&& match out.reply {
        Some(RpcMessage::ClientReply(ClientReply::Success { value })) => match value {
            Some(s) => m.contains_key(key) && s@ == m[key],
            None => !m.contains_key(key),
        },
        _ => false,
    }
}

/// Whether `handle_message(node, store, msg)` may be called.
pub fn can_handle(node: &RaftNode, msg: &RpcMessage) -> (r: bool)
    requires
        node@.wf(),
    ensures
        r == message_fits(node@, *msg),
{
    match msg {
        RpcMessage::AppendEntries(env) => node.can_append(&env.payload),
        RpcMessage::AppendEntriesReply(env) => node.can_take_append_reply(env.from, &env.payload),
        RpcMessage::InstallSnapshot(env) => node.can_install(&env.payload),
        RpcMessage::ClientRequest(ClientRequest::Put { key, value }) => {
            let c = Command::Put { key: key.clone(), value: value.clone() };
            node.can_propose(&c)
        },
        RpcMessage::ClientRequest(ClientRequest::Delete { key }) => {
            let c = Command::Delete { key: key.clone() };
            node.can_propose(&c)
        },
        _ => true,
    }
}

/// Handle one incoming message: peer RPCs go to the state machine and are
/// answered to their sender; a client read is answered from the store; a
/// client write is proposed, and only a leader accepts it.
pub fn handle_message(node: &mut RaftNode, store: &KvStore, msg: RpcMessage) -> (out: MessageOutcome)
    requires
        old(node)@.wf(),
        message_fits(old(node)@, msg),
    ensures
        final(node)@.wf(),
        match msg {
            RpcMessage::RequestVote(env) => {
                let (v, reply) = old(node)@.request_vote(env.payload);
                &&& final(node)@ == v
                &&& out.reply == Some(
                    RpcMessage::RequestVoteReply((Envelope { from: old(node).id, to: env.from, payload: reply })),
                )
                &&& out.outbound@.len() == 0
                &&& out.reset_election == reply.vote_granted
                &&& out.pending is None
            },
            RpcMessage::RequestVoteReply(env) => {
                let (v, msgs) = old(node)@.request_vote_reply(env.from, env.payload);
                &&& final(node)@ == v
                &&& msgs_view(out.outbound@) == msgs
                &&& quiet(out)
            },
            RpcMessage::AppendEntries(env) => {
                let (v, reply) = old(node)@.append_entries(env.payload@);
                &&& final(node)@ == v
                &&& out.reply == Some(
                    RpcMessage::AppendEntriesReply((Envelope { from: old(node).id, to: env.from, payload: reply })),
                )
                &&& out.outbound@.len() == 0
                &&& out.reset_election
                &&& out.pending is None
            },
            RpcMessage::AppendEntriesReply(env) => {
                let (v, msgs) = old(node)@.append_entries_reply(env.from, env.payload);
                &&& final(node)@ == v
                &&& msgs_view(out.outbound@) == msgs
                &&& quiet(out)
            },
            RpcMessage::InstallSnapshot(env) => {
                let (v, reply) = old(node)@.install_snapshot(env.payload@);
                &&& final(node)@ == v
                &&& out.reply == Some(
                    RpcMessage::InstallSnapshotReply((Envelope { from: old(node).id, to: env.from, payload: reply })),
                )
                &&& out.outbound@.len() == 0
                &&& out.reset_election
                &&& out.pending is None
            },
            RpcMessage::InstallSnapshotReply(env) => {
                &&& final(node)@ == old(node)@.install_snapshot_reply(env.from, env.payload)
                &&& out.outbound@.len() == 0
                &&& quiet(out)
            },
            RpcMessage::ClientRequest(ClientRequest::Get { key }) => {
                &&& final(node)@ == old(node)@
                &&& read_outcome(store@, key@, out)
            },
            RpcMessage::ClientRequest(ClientRequest::Put { key, value }) => proposal_outcome(
                old(node)@,
                CommandView::Put { key: key@, value: value@ },
                final(node)@,
                out,
            ),
            RpcMessage::ClientRequest(ClientRequest::Delete { key }) => proposal_outcome(
                old(node)@,
                CommandView::Delete { key: key@ },
                final(node)@,
                out,
            ),
            RpcMessage::ClientReply(_) => {
                &&& final(node)@ == old(node)@
                &&& out.outbound@.len() == 0
                &&& quiet(out)
            },
        },
{
    let id = node.id;
    match msg {
        RpcMessage::RequestVote(env) => {
            let (reply, outbound) = node.handle_request_vote(env.payload);
            let reset_election = reply.vote_granted;
            MessageOutcome {
                reply: Some(RpcMessage::RequestVoteReply(Envelope { from: id, to: env.from, payload: reply })),
                outbound,
                reset_election,
                pending: None,
            }
        },
        RpcMessage::RequestVoteReply(env) => {
            let outbound = node.handle_request_vote_reply(env.from, env.payload);
            MessageOutcome { reply: None, outbound, reset_election: false, pending: None }
        },
        RpcMessage::AppendEntries(env) => {
            let (reply, outbound) = node.handle_append_entries(env.payload);
            MessageOutcome {
                reply: Some(RpcMessage::AppendEntriesReply(Envelope { from: id, to: env.from, payload: reply })),
                outbound,
                reset_election: true,
                pending: None,
            }
        },
        RpcMessage::AppendEntriesReply(env) => {
            let outbound = node.handle_append_entries_reply(env.from, env.payload);
            MessageOutcome { reply: None, outbound, reset_election: false, pending: None }
        },
        RpcMessage::InstallSnapshot(env) => {
            let (reply, outbound) = node.handle_install_snapshot(env.payload);
            MessageOutcome {
                reply: Some(RpcMessage::InstallSnapshotReply(Envelope { from: id, to: env.from, payload: reply })),
                outbound,
                reset_election: true,
                pending: None,
            }
        },
        RpcMessage::InstallSnapshotReply(env) => {
            let outbound = node.handle_install_snapshot_reply(env.from, env.payload);
            MessageOutcome { reply: None, outbound, reset_election: false, pending: None }
        },
        RpcMessage::ClientRequest(ClientRequest::Get { key }) => {
            let value = match store.get(key.as_str()) {
                Some(v) => Some(v.clone()),
                None => None,
            };
            MessageOutcome {
                reply: Some(RpcMessage::ClientReply(ClientReply::Success { value })),
                outbound: Vec::new(),
                reset_election: false,
                pending: None,
            }
        },
        RpcMessage::ClientRequest(ClientRequest::Put { key, value }) => {
            propose_command(node, Command::Put { key, value })
        },
        RpcMessage::ClientRequest(ClientRequest::Delete { key }) => {
            propose_command(node, Command::Delete { key })
        },
        RpcMessage::ClientReply(_) => {
            MessageOutcome { reply: None, outbound: Vec::new(), reset_election: false, pending: None }
        },
    }
}

/// A client write: proposed to the state machine, or answered with the
/// known leader when this node does not lead.
fn propose_command(node: &mut RaftNode, command: Command) -> (out: MessageOutcome)
    requires
        old(node)@.wf(),
        old(node)@.proposal_fits(command@),
    ensures
        final(node)@.wf(),
        proposal_outcome(old(node)@, command@, final(node)@, out),
{
    let entry = LogEntry { term: node.current_term, command: command.clone() };
    match node.propose(command) {
        Ok((index, outbound)) => MessageOutcome {
            reply: None,
            outbound,
            reset_election: false,
            pending: Some(PendingWrite { index, entry }),
        },
        Err(_) => MessageOutcome {
            reply: Some(RpcMessage::ClientReply(ClientReply::NotLeader { leader_id: node.leader_id })),
            outbound: Vec::new(),
            reset_election: false,
            pending: None,
        },
    }
}

/// The node after `settle`: committed entries applied, then the log compacted
/// up to the commit index if it grew past `COMPACTION_THRESHOLD` entries.
pub open spec fn settled(v: RaftNodeView) -> RaftNodeView {
    let a = RaftNodeView { last_applied: v.applied_through(), ..v };
    if a.log.len() > COMPACTION_THRESHOLD {
        a.compact_log(a.commit_index as u64)
    } else {
        a
    }
}

/// What `settle` asks of the machine limits: the entries to apply are in the
/// log, and a compaction up to the commit index stays within it.
pub open spec fn settle_fits(v: RaftNodeView) -> bool {
    &&& v.apply_fits()
    &&& (v.log.len() > COMPACTION_THRESHOLD && v.compacts(v.commit_index as u64)) ==> v.commit_index
        <= v.last_log_index()
}

/// Whether `settle(node, store)` may be called.
pub fn can_settle(node: &RaftNode) -> (r: bool)
    requires
        node@.wf(),
    ensures
        r == settle_fits(node@),
{
    node.can_apply() && (node.log.len() <= COMPACTION_THRESHOLD || node.can_compact(
        node.commit_index as u64,
    ))
}

/// What follows every message: apply the newly committed entries to the
/// store, then compact a log longer than `COMPACTION_THRESHOLD` up to the
/// commit index. Returns how many entries were applied.
pub fn settle(node: &mut RaftNode, store: &mut KvStore) -> (applied: usize)
    requires
        old(node)@.wf(),
        settle_fits(old(node)@),
    ensures
        final(node)@.wf(),
        final(node)@ == settled(old(node)@),
        applied == old(node)@.entries_to_apply().len(),
        final(store)@ == apply_entries(old(store)@, old(node)@.entries_to_apply()),
{
    let applied = node.apply_committed(store);
    if node.log.len() > COMPACTION_THRESHOLD {
        let compact_to = node.commit_index as u64;
        node.compact_log(compact_to);
    }
    applied
}

/// Whether the node leads.
pub open spec fn leads(v: RaftNodeView) -> bool {
    v.state == NodeState::Leader
}

/// What a tick asks of the machine limits: a leader whose heartbeat is due
/// can build a message for every peer, and a node whose election timer runs
/// out has a next term.
pub open spec fn tick_fits(v: RaftNodeView, t: TimersView) -> bool {
    &&& (v.state == NodeState::Leader && t.heartbeat_elapsed + TICK_MS >= HEARTBEAT_TIMEOUT_MS)
        ==> v.next_indices_in_range()
    &&& (v.state != NodeState::Leader && t.election_elapsed + TICK_MS >= t.election_timeout)
        ==> v.current_term < u64::MAX
}

/// Whether `on_tick(node, timers)` may be called.
pub fn can_tick(node: &RaftNode, timers: &Timers) -> (r: bool)
    requires
        node@.wf(),
    ensures
        r == tick_fits(node@, timers@),
{
    proof {
        use_type_invariant(timers);
    }
    if node.state == NodeState::Leader {
        timers.heartbeat_elapsed + TICK_MS < HEARTBEAT_TIMEOUT_MS || node.can_send_heartbeats()
    } else {
        (timers.election_elapsed as u64) + (TICK_MS as u64) < (timers.election_timeout as u64)
            || node.current_term < u64::MAX
    }
}

/// One timer tick of `TICK_MS`: a leader sends heartbeats when its interval is
/// over; any other node starts an election when its timeout runs out.
pub fn on_tick(node: &mut RaftNode, timers: &mut Timers) -> (r: (TickAction, Vec<OutboundMsg>))
    requires
        old(node)@.wf(),
        tick_fits(old(node)@, old(timers)@),
    ensures
        final(node)@.wf(),
        final(timers)@.valid(),
        exists|t: u32|
            ELECTION_TIMEOUT_MIN_MS <= t < ELECTION_TIMEOUT_MAX_MS && (final(timers)@, r.0) == old(
                timers,
            )@.tick(leads(old(node)@), t),
        match r.0 {
            TickAction::Idle => final(node)@ == old(node)@ && r.1@.len() == 0,
            TickAction::SendHeartbeats => final(node)@ == old(node)@ && msgs_view(r.1@) == old(
                node,
            )@.heartbeats(),
            TickAction::StartElection => (final(node)@, msgs_view(r.1@)) == old(
                node,
            )@.start_election(),
        },
{
    proof {
        use_type_invariant(&*timers);
    }
    let is_leader = node.state == NodeState::Leader;
    let action = timers.tick(is_leader);
    proof {
        let t = choose|t: u32|
            ELECTION_TIMEOUT_MIN_MS <= t < ELECTION_TIMEOUT_MAX_MS && (timers@, action) == old(
                timers,
            )@.tick(is_leader, t);
        assert(leads(old(node)@) == is_leader);
        assert((timers@, action) == old(timers)@.tick(leads(old(node)@), t));
    }
    match action {
        TickAction::Idle => (action, Vec::new()),
        TickAction::SendHeartbeats => {
            let msgs = node.send_heartbeats();
            (action, msgs)
        },
        TickAction::StartElection => {
            let msgs = node.start_election();
            (action, msgs)
        },
    }
}

/// A node that hears from a leader before each tick never starts an
/// election: restarting the election timer and then ticking leaves it idle.
pub proof fn law_heard_leader_stays_follower(t: TimersView, became_leader: bool, fresh: u32)
    requires
        t.valid(),
    ensures
        t.after_message(became_leader, true).tick(false, fresh).1 == TickAction::Idle,
{
}

/// A client write that waits for its answer: the entry it was appended as,
/// and where.
pub struct PendingWrite {
    pub index: u64,
    pub entry: LogEntry,
}

pub struct PendingWriteView {
    pub index: u64,
    pub entry: LogEntryView,
}

impl View for PendingWrite {
    type V = PendingWriteView;

    open spec fn view(&self) -> PendingWriteView {
        PendingWriteView { index: self.index, entry: self.entry@ }
    }
}

/// How a waiting client write ended.
#[derive(Debug, Clone, Copy, PartialEq, Eq, Structural)]
pub enum WriteFate {
    /// Its own entry is committed at its index.
    Committed,
    /// Another entry took its place, or the log was cut below it: the write
    /// is lost.
    Overwritten,
    /// A snapshot replaced the log up to its index, so whether it was
    /// committed cannot be told here.
    Unknown,
}

/// The fate of the waiting write `w` on node `v`, or `None` while it waits.
pub open spec fn write_fate_of(v: RaftNodeView, w: PendingWriteView) -> Option<WriteFate> {
    if w.index <= v.last_included_index {
        Some(WriteFate::Unknown)
    } else if w.index > v.last_log_index() || v.entry_at(w.index as int) != w.entry {
        Some(WriteFate::Overwritten)
    } else if w.index <= v.commit_index {
        Some(WriteFate::Committed)
    } else {
        None
    }
}

/// Decide whether the waiting write `w` can be answered yet, and how.
pub fn write_fate(node: &RaftNode, w: &PendingWrite) -> (r: Option<WriteFate>)
    requires
        node@.wf(),
    ensures
        r == write_fate_of(node@, w@),
{
    if w.index <= node.last_included_index {
        return Some(WriteFate::Unknown);
    }
    let offset = w.index - node.last_included_index;
    if offset as u128 >= node.log.len() as u128 {
        return Some(WriteFate::Overwritten);
    }
    let p = offset as usize;
    if !same_entry(&node.log[p], &w.entry) {
        return Some(WriteFate::Overwritten);
    }
    if w.index as u128 <= node.commit_index as u128 {
        Some(WriteFate::Committed)
    } else {
        None
    }
}

/// The answer a client gets for its write.
pub fn fate_reply(fate: WriteFate) -> (r: ClientReply)
    ensures
        fate == WriteFate::Committed ==> r == (ClientReply::Success { value: None }),
        fate == WriteFate::Overwritten ==> (r matches ClientReply::Error { message } && message@
            == "write lost: a new leader replaced it"@),
        fate == WriteFate::Unknown ==> (r matches ClientReply::Error { message } && message@
            == "write outcome unknown: the log was replaced by a snapshot"@),
{
    match fate {
        WriteFate::Committed => ClientReply::Success { value: None },
        WriteFate::Overwritten => ClientReply::Error {
            message: "write lost: a new leader replaced it".to_string(),
        },
        WriteFate::Unknown => ClientReply::Error {
            message: "write outcome unknown: the log was replaced by a snapshot".to_string(),
        },
    }
}

/// A client write is answered with success only when its own entry is
/// committed at its index, and, once `settle` has run, applied: the entry at
/// that index is the client's own command in the term it was proposed in.
pub proof fn law_answered_write_is_its_own(v: RaftNodeView, w: PendingWriteView)
    requires
        v.wf(),
        settle_fits(v),
        write_fate_of(v, w) == Some(WriteFate::Committed),
    ensures
        v.last_included_index < w.index <= v.commit_index,
        w.index <= v.last_log_index(),
        v.entry_at(w.index as int) == w.entry,
        settled(v).commit_index == v.commit_index,
        w.index <= settled(v).last_applied,
{
}

/// A write a leader has just accepted is waiting or committed, never lost or
/// unknown: its own entry stands at the index the client waits on.
pub proof fn law_accepted_write_stands(v: RaftNodeView, c: CommandView)
    requires
        v.wf(),
        v.state == NodeState::Leader,
        v.proposal_fits(c),
    ensures
        ({
            let (w, index, _) = v.propose(c);
            let pending = PendingWriteView { index, entry: LogEntryView { term: v.current_term, command: c } };
            write_fate_of(w, pending) is None || write_fate_of(w, pending) == Some(WriteFate::Committed)
        }),
{
    let p = v.with_proposal(c);
    assert(p.advance_commit().log == p.log);
    assert(p.advance_commit().last_included_index == p.last_included_index);
}

} // verus!
