//! How the command-line client chooses the node to ask: it follows a
//! follower's redirect to the leader, moves on to the next node when a node
//! cannot answer, and gives up after twice as many attempts as there are
//! nodes.
use vstd::prelude::*;

use crate::rpc::ClientReply;

verus! {

/// Pause before asking the leader a follower named.
pub const REDIRECT_WAIT_MS: u64 = 100;

/// Pause before trying the next node.
pub const RETRY_WAIT_MS: u64 = 500;

/// What the client does after an attempt.
#[derive(Debug, Clone, Copy, PartialEq, Eq, Structural)]
pub enum RouteStep {
    /// The request got its answer.
    Finished,
    /// Wait this long, then ask the node `Router::target` names.
    Retry { wait_ms: u64 },
}

/// The client's position in its attempts over `node_count` nodes.
pub struct Router {
    target: usize,
    node_count: usize,
    attempts_left: usize,
}

pub struct RouterView {
    pub target: usize,
    pub node_count: usize,
    pub attempts_left: usize,
}

impl View for Router {
    type V = RouterView;

    closed spec fn view(&self) -> RouterView {
        RouterView {
            target: self.target,
            node_count: self.node_count,
            attempts_left: self.attempts_left,
        }
    }
}

impl RouterView {
    /// The node after the target, wrapping around.
    pub open spec fn next_target(self) -> usize {
        ((self.target + 1) % (self.node_count as int)) as usize
    }

    /// An attempt that got no answer: try the next node after a pause.
    pub open spec fn after_failure(self) -> (RouterView, RouteStep) {
        (
            RouterView {
                target: self.next_target(),
                attempts_left: (self.attempts_left - 1) as usize,
                ..self
            },
            RouteStep::Retry { wait_ms: RETRY_WAIT_MS },
        )
    }

    /// An attempt that got `reply`: a success or an error ends the request; a
    /// follower that names a leader among the nodes sends the client there,
    /// and one that does not sends it on to the next node.
    pub open spec fn after_reply(self, reply: ClientReply) -> (RouterView, RouteStep) {
        let spent = RouterView { attempts_left: (self.attempts_left - 1) as usize, ..self };
        match reply {
            ClientReply::Success { .. } => (spent, RouteStep::Finished),
            ClientReply::Error { .. } => (spent, RouteStep::Finished),
            ClientReply::NotLeader { leader_id } => match leader_id {
                Some(id) if (id as usize) < self.node_count => (
                    RouterView { target: id as usize, ..spent },
                    RouteStep::Retry { wait_ms: REDIRECT_WAIT_MS },
                ),
                _ => self.after_failure(),
            },
        }
    }
}

impl Router {
    #[verifier::type_invariant]
    spec fn inv(self) -> bool {
        self.target < self.node_count
    }

    /// A router over `node_count` nodes that starts at the first one with
    /// `2 * node_count` attempts; none when there are no nodes.
    pub fn new(node_count: usize) -> (r: Option<Router>)
        requires
            node_count <= usize::MAX / 2,
        ensures
            node_count == 0 <==> r is None,
            r matches Some(router) ==> router@ == (RouterView {
                target: 0,
                node_count,
                attempts_left: (2 * node_count) as usize,
            }),
    {
        if node_count == 0 {
            return None;
        }
        Some(Router { target: 0, node_count, attempts_left: node_count * 2 })
    }

    /// The node to ask next; always one of the nodes.
    pub fn target(&self) -> (r: usize)
        ensures
            r == self@.target,
            r < self@.node_count,
    {
        proof {
            use_type_invariant(self);
        }
        self.target
    }

    /// Whether another attempt may be made.
    pub fn has_attempts_left(&self) -> (r: bool)
        ensures
            r == (self@.attempts_left > 0),
    {
        self.attempts_left > 0
    }

    /// Record an attempt that got no answer.
    pub fn after_failure(&mut self) -> (r: RouteStep)
        requires
            old(self)@.attempts_left > 0,
        ensures
            (final(self)@, r) == old(self)@.after_failure(),
            final(self)@.target < final(self)@.node_count,
    {
        proof {
            use_type_invariant(&*self);
        }
        self.target = (self.target + 1) % self.node_count;
        self.attempts_left = self.attempts_left - 1;
        RouteStep::Retry { wait_ms: RETRY_WAIT_MS }
    }

    /// Record an attempt that got `reply`.
    pub fn after_reply(&mut self, reply: &ClientReply) -> (r: RouteStep)
        requires
            old(self)@.attempts_left > 0,
        ensures
            (final(self)@, r) == old(self)@.after_reply(*reply),
            final(self)@.target < final(self)@.node_count,
    {
        proof {
            use_type_invariant(&*self);
        }
        match reply {
            ClientReply::Success { .. } | ClientReply::Error { .. } => {
                self.attempts_left = self.attempts_left - 1;
                RouteStep::Finished
            },
            ClientReply::NotLeader { leader_id } => match leader_id {
                Some(id) if (*id as usize) < self.node_count => {
                    self.target = *id as usize;
                    self.attempts_left = self.attempts_left - 1;
                    RouteStep::Retry { wait_ms: REDIRECT_WAIT_MS }
                },
                _ => self.after_failure(),
            },
        }
    }
}

} // verus!
