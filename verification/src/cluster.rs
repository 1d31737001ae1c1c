//! A cluster of Raft nodes that exchange votes, and election safety over it:
//! in every state the cluster can reach, at most one node leads each term.
//!
//! Votes travel as packets; every other message a node handles (AppendEntries,
//! InstallSnapshot and their replies, client commands, compaction, applying)
//! may come from anywhere with any content, so safety does not rest on them.
use vstd::prelude::*;

use crate::raft::{NodeState, RequestVoteArgs, RequestVoteReply};
use crate::raft_laws::{lemma_commit_moves, law_term_never_decreases, law_vote_kept_within_term, Event};
use crate::raft_model::RaftNodeView;

verus! {

/// Whether `e` is an operation other than those of an election (the timer
/// firing, a vote request, a vote reply).
pub open spec fn outside_elections(e: Event) -> bool {
    match e {
        Event::ElectionTimeout => false,
        Event::RequestVote(_) => false,
        Event::RequestVoteReply(_, _) => false,
        _ => true,
    }
}

/// What an operation outside elections does to a node's election state: it
/// keeps its id and peers, never lowers its term, keeps its vote within the
/// term, keeps or clears the votes it received, and leaves a node leader only
/// if it was leader with the same votes.
proof fn lemma_outside_elections(v: RaftNodeView, e: Event)
    requires
        v.wf(),
        v.step_allowed(e),
        outside_elections(e),
        v.votes_received.finite(),
    ensures
        v.step(e).id == v.id,
        v.step(e).peers == v.peers,
        v.step(e).current_term >= v.current_term,
        v.step(e).current_term == v.current_term ==> v.step(e).voted_for == v.voted_for,
        (v.step(e).votes_received == v.votes_received && v.step(e).current_term == v.current_term)
            || v.step(e).votes_received == Set::<u64>::empty(),
        v.step(e).state == NodeState::Leader ==> v.state == NodeState::Leader
            && v.step(e).votes_received == v.votes_received,
        v.step(e).votes_received.finite(),
{
    law_term_never_decreases(v, e);
    if let Some(c) = v.voted_for {
        if v.step(e).current_term == v.current_term {
            law_vote_kept_within_term(v, e, c);
        }
    }
    lemma_commit_moves(v, e);
}

/// A vote reply on its way from the voter `from` to the candidate `to`.
pub struct VoteReplyPacket {
    pub from: u64,
    pub to: u64,
    pub reply: RequestVoteReply,
}

/// The nodes by id, the vote replies sent so far (the network may delay,
/// repeat or drop them), and, as records kept for the proof, every vote ever
/// given as (voter, term, candidate) and every leadership ever held.
pub struct ClusterView {
    pub nodes: Map<u64, RaftNodeView>,
    pub replies: Set<VoteReplyPacket>,
    pub votes: Set<(u64, u64, u64)>,
    /// Every (term, node) such that the node has led that term.
    pub elected: Set<(u64, u64)>,
}

/// One step of the cluster: one node runs one handler.
pub enum ClusterStep {
    /// Node `k`'s election timer fires.
    Timeout(u64),
    /// Node `to` handles a RequestVote of the candidate `from`.
    Request { from: u64, to: u64, args: RequestVoteArgs },
    /// A vote reply that was sent reaches its candidate.
    Reply(VoteReplyPacket),
    /// Node `k` handles any other operation, whatever its content.
    Other(u64, Event),
}

impl ClusterView {
    /// A cluster before any vote: `n` nodes, each knowing the others as its
    /// peers, none a leader and none holding votes.
    pub open spec fn initial(self) -> bool {
        &&& self.nodes.dom().finite()
        &&& self.replies == Set::<VoteReplyPacket>::empty()
        &&& self.votes == Set::<(u64, u64, u64)>::empty()
        &&& self.elected == Set::<(u64, u64)>::empty()
        &&& forall|k: u64|
            self.nodes.dom().contains(k) ==> {
                &&& #[trigger] self.nodes[k].id == k
                &&& self.nodes[k].peers.len() + 1 == self.nodes.dom().len()
                &&& self.nodes[k].votes_received == Set::<u64>::empty()
                &&& self.nodes[k].state != NodeState::Leader
            }
    }

    /// Whether node `k` may run the step: it exists, is well formed, and the
    /// handler's own conditions hold; a RequestVote comes from its candidate,
    /// and a vote reply was sent.
    pub open spec fn enabled(self, s: ClusterStep) -> bool {
        match s {
            ClusterStep::Timeout(k) => {
                &&& self.nodes.dom().contains(k)
                &&& self.nodes[k].wf()
                &&& self.nodes[k].step_allowed(Event::ElectionTimeout)
            },
            ClusterStep::Request { from, to, args } => {
                &&& self.nodes.dom().contains(to)
                &&& self.nodes[to].wf()
                &&& args.candidate_id == from
            },
            ClusterStep::Reply(p) => {
                &&& self.replies.contains(p)
                &&& self.nodes.dom().contains(p.to)
                &&& self.nodes[p.to].wf()
            },
            ClusterStep::Other(k, e) => {
                &&& self.nodes.dom().contains(k)
                &&& self.nodes[k].wf()
                &&& self.nodes[k].step_allowed(e)
                &&& outside_elections(e)
            },
        }
    }

    /// The cluster with node `k` replaced by `w`, and the given replies and
    /// vote record; a leader `w` is recorded as having led its term.
    pub open spec fn with_node(
        self,
        k: u64,
        w: RaftNodeView,
        replies: Set<VoteReplyPacket>,
        votes: Set<(u64, u64, u64)>,
    ) -> ClusterView {
        ClusterView {
            nodes: self.nodes.insert(k, w),
            replies,
            votes,
            elected: if w.state == NodeState::Leader {
                self.elected.insert((w.current_term, k))
            } else {
                self.elected
            },
        }
    }

    /// The cluster after step `s`.
    pub open spec fn next(self, s: ClusterStep) -> ClusterView {
        match s {
            ClusterStep::Timeout(k) => {
                let v = self.nodes[k].start_election().0;
                self.with_node(k, v, self.replies, self.votes.insert((k, v.current_term, k)))
            },
            ClusterStep::Request { from, to, args } => {
                let (v, reply) = self.nodes[to].request_vote(args);
                self.with_node(
                    to,
                    v,
                    self.replies.insert(VoteReplyPacket { from: to, to: from, reply }),
                    if reply.vote_granted {
                        self.votes.insert((to, reply.term, from))
                    } else {
                        self.votes
                    },
                )
            },
            ClusterStep::Reply(p) => self.with_node(
                p.to,
                self.nodes[p.to].request_vote_reply(p.from, p.reply).0,
                self.replies,
                self.votes,
            ),
            ClusterStep::Other(k, e) => self.with_node(k, self.nodes[k].step(e), self.replies, self.votes),
        }
    }

    /// The nodes that voted for `l` in term `t`.
    pub open spec fn voters_for(self, t: u64, l: u64) -> Set<u64> {
        self.nodes.dom().filter(|u: u64| self.votes.contains((u, t, l)))
    }

    /// What holds in every reachable state: ids and membership are fixed; a
    /// recorded vote is by a node that has reached its term and, while still
    /// in it, holds that vote; a voter gives one vote per term; every granted
    /// reply and every vote a node counts is recorded; and a leader holds the
    /// votes of a majority.
    pub open spec fn inv(self) -> bool {
        &&& self.nodes.dom().finite()
        &&& forall|k: u64|
            self.nodes.dom().contains(k) ==> {
                &&& #[trigger] self.nodes[k].id == k
                &&& self.nodes[k].peers.len() + 1 == self.nodes.dom().len()
                &&& self.nodes[k].votes_received.finite()
            }
        &&& forall|u: u64, t: u64, c: u64|
            #[trigger] self.votes.contains((u, t, c)) ==> {
                &&& self.nodes.dom().contains(u)
                &&& self.nodes[u].current_term >= t
                &&& self.nodes[u].current_term == t ==> self.nodes[u].voted_for == Some(c)
            }
        &&& forall|u: u64, t: u64, c1: u64, c2: u64|
            #[trigger] self.votes.contains((u, t, c1)) && #[trigger] self.votes.contains((u, t, c2))
                ==> c1 == c2
        &&& forall|p: VoteReplyPacket|
            #[trigger] self.replies.contains(p) && p.reply.vote_granted ==> self.votes.contains(
                (p.from, p.reply.term, p.to),
            )
        &&& forall|k: u64, u: u64|
            self.nodes.dom().contains(k) && #[trigger] self.nodes[k].votes_received.contains(u)
                ==> self.votes.contains((u, self.nodes[k].current_term, k))
        &&& forall|k: u64|
            self.nodes.dom().contains(k) && #[trigger] self.nodes[k].state == NodeState::Leader
                ==> self.nodes[k].votes_received.len() >= self.nodes[k].majority()
        &&& forall|t: u64, l: u64|
            #[trigger] self.elected.contains((t, l)) ==> self.voters_for(t, l).len()
                >= self.nodes.dom().len() / 2 + 1
        &&& forall|k: u64|
            self.nodes.dom().contains(k) && #[trigger] self.nodes[k].state == NodeState::Leader
                ==> self.elected.contains((self.nodes[k].current_term, k))
    }
}

/// A cluster starts out in a state where the invariant holds.
pub proof fn law_cluster_starts_safe(c: ClusterView)
    requires
        c.initial(),
    ensures
        c.inv(),
{
    assert forall|k: u64| c.nodes.dom().contains(k) implies {
        &&& #[trigger] c.nodes[k].id == k
        &&& c.nodes[k].peers.len() + 1 == c.nodes.dom().len()
        &&& c.nodes[k].votes_received.finite()
    } by {
        assert(c.nodes[k].id == k);
    }
    assert forall|k: u64, u: u64|
        c.nodes.dom().contains(k) && #[trigger] c.nodes[k].votes_received.contains(u) implies c.votes.contains(
            (u, c.nodes[k].current_term, k),
        ) by {
        assert(c.nodes[k].id == k);
    }
    assert forall|k: u64|
        c.nodes.dom().contains(k) && #[trigger] c.nodes[k].state == NodeState::Leader implies c.nodes[k].votes_received.len()
            >= c.nodes[k].majority() by {
        assert(c.nodes[k].id == k);
    }
    assert forall|k: u64|
        c.nodes.dom().contains(k) && #[trigger] c.nodes[k].state == NodeState::Leader implies c.elected.contains(
            (c.nodes[k].current_term, k),
        ) by {
        assert(c.nodes[k].id == k);
    }
}

/// Election safety (section 5.2): in a cluster where the invariant holds, two
/// nodes that have led the same term are the same node.
pub proof fn law_one_leader_per_term(c: ClusterView, t: u64, l1: u64, l2: u64)
    requires
        c.inv(),
        c.elected.contains((t, l1)),
        c.elected.contains((t, l2)),
    ensures
        l1 == l2,
{
    let a = c.voters_for(t, l1);
    let b = c.voters_for(t, l2);
    let dom = c.nodes.dom();
    if l1 != l2 {
        assert(a.disjoint(b)) by {
            assert forall|u: u64| a.contains(u) implies !b.contains(u) by {
                if b.contains(u) {
                    assert(c.votes.contains((u, t, l1)));
                    assert(c.votes.contains((u, t, l2)));
                }
            }
        }
        assert((a + b).subset_of(dom));
        vstd::set_lib::lemma_len_subset(a, dom);
        vstd::set_lib::lemma_len_subset(b, dom);
        vstd::set_lib::lemma_set_disjoint_lens(a, b);
        vstd::set_lib::lemma_len_subset(a + b, dom);
        assert(false);
    }
}

/// At any moment, two leaders of the same term are the same node.
pub proof fn law_leaders_of_a_term_coincide(c: ClusterView, k1: u64, k2: u64)
    requires
        c.inv(),
        c.nodes.dom().contains(k1),
        c.nodes.dom().contains(k2),
        c.nodes[k1].state == NodeState::Leader,
        c.nodes[k2].state == NodeState::Leader,
        c.nodes[k1].current_term == c.nodes[k2].current_term,
    ensures
        k1 == k2,
{
    law_one_leader_per_term(c, c.nodes[k1].current_term, k1, k2);
}

/// The invariant survives replacing node `k` by `w`, the replies by
/// `replies2` and the vote record by `votes2`, when each part of it holds of
/// what changed.
proof fn lemma_update(
    c: ClusterView,
    k: u64,
    w: RaftNodeView,
    replies2: Set<VoteReplyPacket>,
    votes2: Set<(u64, u64, u64)>,
)
    requires
        c.inv(),
        c.nodes.dom().contains(k),
        w.id == k,
        w.peers.len() == c.nodes[k].peers.len(),
        w.votes_received.finite(),
        c.votes.subset_of(votes2),
        forall|u: u64, t: u64, x: u64|
            #[trigger] votes2.contains((u, t, x)) ==> if u == k {
                &&& w.current_term >= t
                &&& w.current_term == t ==> w.voted_for == Some(x)
            } else {
                c.votes.contains((u, t, x))
            },
        forall|u: u64, t: u64, c1: u64, c2: u64|
            #[trigger] votes2.contains((u, t, c1)) && #[trigger] votes2.contains((u, t, c2)) ==> c1 == c2,
        forall|p: VoteReplyPacket|
            #[trigger] replies2.contains(p) && p.reply.vote_granted ==> votes2.contains(
                (p.from, p.reply.term, p.to),
            ),
        forall|u: u64| #[trigger] w.votes_received.contains(u) ==> votes2.contains((u, w.current_term, k)),
        w.state == NodeState::Leader ==> w.votes_received.len() >= w.majority(),
    ensures
        c.with_node(k, w, replies2, votes2).inv(),
{
    let n = c.with_node(k, w, replies2, votes2);
    assert(n.nodes.dom() =~= c.nodes.dom());
    assert forall|j: u64| n.nodes.dom().contains(j) implies {
        &&& #[trigger] n.nodes[j].id == j
        &&& n.nodes[j].peers.len() + 1 == n.nodes.dom().len()
        &&& n.nodes[j].votes_received.finite()
    } by {
        assert(c.nodes[j].id == j);
    }
    assert forall|u: u64, t: u64, x: u64| #[trigger] n.votes.contains((u, t, x)) implies {
        &&& n.nodes.dom().contains(u)
        &&& n.nodes[u].current_term >= t
        &&& n.nodes[u].current_term == t ==> n.nodes[u].voted_for == Some(x)
    } by {
        if u != k {
            assert(c.votes.contains((u, t, x)));
        }
    }
    assert forall|j: u64, u: u64|
        n.nodes.dom().contains(j) && #[trigger] n.nodes[j].votes_received.contains(u) implies n.votes.contains(
            (u, n.nodes[j].current_term, j),
        ) by {
        if j != k {
            assert(c.nodes[j].votes_received.contains(u));
            assert(c.votes.contains((u, c.nodes[j].current_term, j)));
        }
    }
    assert forall|j: u64|
        n.nodes.dom().contains(j) && #[trigger] n.nodes[j].state == NodeState::Leader implies n.nodes[j].votes_received.len()
            >= n.nodes[j].majority() by {
        if j != k {
            assert(c.nodes[j].state == NodeState::Leader);
        }
    }
    assert forall|j: u64|
        n.nodes.dom().contains(j) && #[trigger] n.nodes[j].state == NodeState::Leader implies n.elected.contains(
            (n.nodes[j].current_term, j),
        ) by {
        if j != k {
            assert(c.nodes[j].state == NodeState::Leader);
        }
    }
    let dom = c.nodes.dom();
    assert forall|t: u64, l: u64| #[trigger] n.elected.contains((t, l)) implies n.voters_for(t, l).len()
        >= dom.len() / 2 + 1 by {
        vstd::set_lib::lemma_len_subset(n.voters_for(t, l), dom);
        assert(c.nodes[k].id == k);
        assert(c.nodes[k].peers.len() + 1 == dom.len());
        if c.elected.contains((t, l)) {
            assert(c.voters_for(t, l).subset_of(n.voters_for(t, l))) by {
                assert forall|u: u64| c.voters_for(t, l).contains(u) implies n.voters_for(t, l).contains(u) by {
                    assert(votes2.contains((u, t, l)));
                }
            }
            vstd::set_lib::lemma_len_subset(c.voters_for(t, l), n.voters_for(t, l));
        } else {
            assert(w.state == NodeState::Leader && (t, l) == (w.current_term, k));
            assert(w.votes_received.subset_of(n.voters_for(t, l))) by {
                assert forall|u: u64| w.votes_received.contains(u) implies n.voters_for(t, l).contains(u) by {
                    assert(votes2.contains((u, w.current_term, k)));
                    if u != k {
                        assert(c.votes.contains((u, w.current_term, k)));
                    }
                }
            }
            vstd::set_lib::lemma_len_subset(w.votes_received, n.voters_for(t, l));
        }
    }
}

proof fn lemma_step_other(c: ClusterView, k: u64, e: Event)
    requires
        c.inv(),
        c.enabled(ClusterStep::Other(k, e)),
    ensures
        c.next(ClusterStep::Other(k, e)).inv(),
{
    let v = c.nodes[k];
    let w = v.step(e);
    assert(v.id == k);
    lemma_outside_elections(v, e);
    assert forall|u: u64, t: u64, x: u64| #[trigger] c.votes.contains((u, t, x)) implies if u == k {
        &&& w.current_term >= t
        &&& w.current_term == t ==> w.voted_for == Some(x)
    } else {
        c.votes.contains((u, t, x))
    } by {}
    assert forall|u: u64| #[trigger] w.votes_received.contains(u) implies c.votes.contains(
        (u, w.current_term, k),
    ) by {
        assert(v.votes_received.contains(u));
    }
    lemma_update(c, k, w, c.replies, c.votes);
}

proof fn lemma_step_timeout(c: ClusterView, k: u64)
    requires
        c.inv(),
        c.enabled(ClusterStep::Timeout(k)),
    ensures
        c.next(ClusterStep::Timeout(k)).inv(),
{
    let v = c.nodes[k];
    let w = v.start_election().0;
    let t = w.current_term;
    let votes2 = c.votes.insert((k, t, k));
    assert(v.id == k);
    assert(t == v.current_term + 1);
    assert(w.votes_received == set![k]);
    assert(set![k].len() == 1) by {
        assert(set![k] =~= Set::<u64>::empty().insert(k));
    }
    assert forall|u: u64, t2: u64, x: u64| #[trigger] votes2.contains((u, t2, x)) implies if u == k {
        &&& w.current_term >= t2
        &&& w.current_term == t2 ==> w.voted_for == Some(x)
    } else {
        c.votes.contains((u, t2, x))
    } by {
        if (u, t2, x) != (k, t, k) {
            assert(c.votes.contains((u, t2, x)));
        }
    }
    assert forall|u: u64, t2: u64, c1: u64, c2: u64|
        #[trigger] votes2.contains((u, t2, c1)) && #[trigger] votes2.contains((u, t2, c2)) implies c1
        == c2 by {
        if (u, t2, c1) != (k, t, k) {
            assert(c.votes.contains((u, t2, c1)));
        }
        if (u, t2, c2) != (k, t, k) {
            assert(c.votes.contains((u, t2, c2)));
        }
    }
    assert forall|p: VoteReplyPacket|
        #[trigger] c.replies.contains(p) && p.reply.vote_granted implies votes2.contains(
            (p.from, p.reply.term, p.to),
        ) by {
        assert(c.votes.contains((p.from, p.reply.term, p.to)));
    }
    lemma_update(c, k, w, c.replies, votes2);
}

proof fn lemma_step_request(c: ClusterView, from: u64, to: u64, args: RequestVoteArgs)
    requires
        c.inv(),
        c.enabled(ClusterStep::Request { from, to, args }),
    ensures
        c.next(ClusterStep::Request { from, to, args }).inv(),
{
    let v = c.nodes[to];
    let (w, reply) = v.request_vote(args);
    let packet = VoteReplyPacket { from: to, to: from, reply };
    let replies2 = c.replies.insert(packet);
    let votes2 = if reply.vote_granted {
        c.votes.insert((to, reply.term, from))
    } else {
        c.votes
    };
    assert(v.id == to);
    assert(reply.term == w.current_term);
    assert forall|u: u64, t: u64, x: u64| #[trigger] votes2.contains((u, t, x)) implies if u == to {
        &&& w.current_term >= t
        &&& w.current_term == t ==> w.voted_for == Some(x)
    } else {
        c.votes.contains((u, t, x))
    } by {
        if !(reply.vote_granted && (u, t, x) == (to, reply.term, from)) {
            assert(c.votes.contains((u, t, x)));
        }
    }
    assert forall|u: u64, t: u64, c1: u64, c2: u64|
        #[trigger] votes2.contains((u, t, c1)) && #[trigger] votes2.contains((u, t, c2)) implies c1
        == c2 by {
        let fresh = (to, reply.term, from);
        if reply.vote_granted && (u, t, c1) == fresh && (u, t, c2) != fresh {
            assert(c.votes.contains((u, t, c2)));
        } else if reply.vote_granted && (u, t, c2) == fresh && (u, t, c1) != fresh {
            assert(c.votes.contains((u, t, c1)));
        } else if !(reply.vote_granted && (u, t, c1) == fresh) {
            assert(c.votes.contains((u, t, c1)));
            assert(c.votes.contains((u, t, c2)));
        }
    }
    assert forall|p: VoteReplyPacket|
        #[trigger] replies2.contains(p) && p.reply.vote_granted implies votes2.contains(
            (p.from, p.reply.term, p.to),
        ) by {
        if p != packet {
            assert(c.replies.contains(p));
        }
    }
    assert forall|u: u64| #[trigger] w.votes_received.contains(u) implies votes2.contains(
        (u, w.current_term, to),
    ) by {
        assert(v.votes_received.contains(u));
    }
    lemma_update(c, to, w, replies2, votes2);
}

proof fn lemma_step_reply(c: ClusterView, p: VoteReplyPacket)
    requires
        c.inv(),
        c.enabled(ClusterStep::Reply(p)),
    ensures
        c.next(ClusterStep::Reply(p)).inv(),
{
    let k = p.to;
    let v = c.nodes[k];
    let w = v.request_vote_reply(p.from, p.reply).0;
    assert(v.id == k);
    assert forall|u: u64, t: u64, x: u64| #[trigger] c.votes.contains((u, t, x)) implies if u == k {
        &&& w.current_term >= t
        &&& w.current_term == t ==> w.voted_for == Some(x)
    } else {
        c.votes.contains((u, t, x))
    } by {}
    assert forall|u: u64| #[trigger] w.votes_received.contains(u) implies c.votes.contains(
        (u, w.current_term, k),
    ) by {
        if u != p.from || !(p.reply.term <= v.current_term && v.vote_counts(p.reply)) {
            assert(v.votes_received.contains(u));
        } else {
            assert(c.votes.contains((p.from, p.reply.term, p.to)));
        }
    }
    lemma_update(c, k, w, c.replies, c.votes);
}

/// Election safety is kept by every step of the cluster: from a state where
/// the invariant holds, each enabled step leads to a state where it holds.
/// With `law_cluster_starts_safe` and `law_one_leader_per_term`, no run of
/// the cluster ever has two leaders of one term.
pub proof fn law_cluster_step_stays_safe(c: ClusterView, s: ClusterStep)
    requires
        c.inv(),
        c.enabled(s),
    ensures
        c.next(s).inv(),
{
    match s {
        ClusterStep::Timeout(k) => lemma_step_timeout(c, k),
        ClusterStep::Request { from, to, args } => lemma_step_request(c, from, to, args),
        ClusterStep::Reply(p) => lemma_step_reply(c, p),
        ClusterStep::Other(k, e) => lemma_step_other(c, k, e),
    }
}

/// The cluster after taking `steps` in order from `c`.
pub open spec fn run(c: ClusterView, steps: Seq<ClusterStep>) -> ClusterView
    decreases steps.len(),
{
    if steps.len() == 0 {
        c
    } else {
        run(c, steps.drop_last()).next(steps.last())
    }
}

/// Whether each of `steps` is enabled when it is taken.
pub open spec fn run_enabled(c: ClusterView, steps: Seq<ClusterStep>) -> bool
    decreases steps.len(),
{
    if steps.len() == 0 {
        true
    } else {
        run_enabled(c, steps.drop_last()) && run(c, steps.drop_last()).enabled(steps.last())
    }
}

/// Every run from a fresh cluster keeps the invariant.
proof fn lemma_run_safe(c: ClusterView, steps: Seq<ClusterStep>)
    requires
        c.initial(),
        run_enabled(c, steps),
    ensures
        run(c, steps).inv(),
    decreases steps.len(),
{
    if steps.len() == 0 {
        law_cluster_starts_safe(c);
    } else {
        lemma_run_safe(c, steps.drop_last());
        law_cluster_step_stays_safe(run(c, steps.drop_last()), steps.last());
    }
}

/// Election safety over every run: however the steps of a fresh cluster
/// interleave, whatever the network delays, repeats or drops, and whatever
/// other messages arrive, at most one node is ever leader of a given term.
/// Every leadership along the run is recorded in `elected`.
pub proof fn law_election_safety(c: ClusterView, steps: Seq<ClusterStep>, t: u64, l1: u64, l2: u64)
    requires
        c.initial(),
        run_enabled(c, steps),
        run(c, steps).elected.contains((t, l1)),
        run(c, steps).elected.contains((t, l2)),
    ensures
        l1 == l2,
{
    lemma_run_safe(c, steps);
    law_one_leader_per_term(run(c, steps), t, l1, l2);
}

/// Every leadership held along a run is in the final record: the record
/// only grows, and a node that leads is recorded at once.
pub proof fn law_leadership_recorded(c: ClusterView, steps: Seq<ClusterStep>, i: int, k: u64)
    requires
        c.initial(),
        run_enabled(c, steps),
        0 <= i <= steps.len(),
        run(c, steps.take(i)).nodes.dom().contains(k),
        run(c, steps.take(i)).nodes[k].state == NodeState::Leader,
    ensures
        run(c, steps).elected.contains((run(c, steps.take(i)).nodes[k].current_term, k)),
    decreases steps.len() - i,
{
    lemma_run_enabled_prefix(c, steps, i);
    lemma_run_safe(c, steps.take(i));
    if i < steps.len() {
        let t = run(c, steps.take(i)).nodes[k].current_term;
        lemma_elected_grows(c, steps, i, t, k);
    } else {
        assert(steps.take(i) =~= steps);
    }
}

/// A prefix of an enabled run is an enabled run.
proof fn lemma_run_enabled_prefix(c: ClusterView, steps: Seq<ClusterStep>, i: int)
    requires
        run_enabled(c, steps),
        0 <= i <= steps.len(),
    ensures
        run_enabled(c, steps.take(i)),
    decreases steps.len() - i,
{
    if i < steps.len() {
        assert(steps.drop_last() =~= steps.take(steps.len() - 1));
        lemma_run_enabled_prefix(c, steps.drop_last(), i);
        assert(steps.drop_last().take(i) =~= steps.take(i));
    } else {
        assert(steps.take(i) =~= steps);
    }
}

/// What is recorded after `i` steps stays recorded to the end of the run.
proof fn lemma_elected_grows(c: ClusterView, steps: Seq<ClusterStep>, i: int, t: u64, k: u64)
    requires
        0 <= i <= steps.len(),
        run(c, steps.take(i)).elected.contains((t, k)),
    ensures
        run(c, steps).elected.contains((t, k)),
    decreases steps.len() - i,
{
    if i == steps.len() {
        assert(steps.take(i) =~= steps);
    } else {
        let s2 = steps.take(i + 1);
        assert(s2.drop_last() =~= steps.take(i));
        let prev = run(c, steps.take(i));
        assert(prev.next(s2.last()).elected.contains((t, k)));
        lemma_elected_grows(c, steps, i + 1, t, k);
    }
}

} // verus!
