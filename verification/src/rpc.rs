//! Messages exchanged between nodes and with clients, and the frame layout
//! on the wire: a 4-byte big-endian length followed by the body.
use vstd::prelude::*;

use crate::raft::{
    AppendEntriesArgs, AppendEntriesReply, InstallSnapshotArgs, InstallSnapshotReply, OutboundMsg,
    RequestVoteArgs, RequestVoteReply,
};

verus! {

/// Every RPC payload, with its sender and receiver.
#[derive(Debug, Clone)]
pub struct Envelope<T> {
    pub from: u64,
    pub to: u64,
    pub payload: T,
}

/// A request of the command-line client.
#[derive(Debug, Clone)]
pub enum ClientRequest {
    Get { key: String },
    Put { key: String, value: String },
    Delete { key: String },
}

/// A node's answer to a client.
#[derive(Debug, Clone)]
pub enum ClientReply {
    Success { value: Option<String> },
    Error { message: String },
    NotLeader { leader_id: Option<u64> },
}

/// Everything that travels on the wire.
#[derive(Debug, Clone)]
pub enum RpcMessage {
    RequestVote(Envelope<RequestVoteArgs>),
    RequestVoteReply(Envelope<RequestVoteReply>),
    AppendEntries(Envelope<AppendEntriesArgs>),
    AppendEntriesReply(Envelope<AppendEntriesReply>),
    InstallSnapshot(Envelope<InstallSnapshotArgs>),
    InstallSnapshotReply(Envelope<InstallSnapshotReply>),
    ClientRequest(ClientRequest),
    ClientReply(ClientReply),
}

/// Largest frame body a node accepts (64 MiB).
pub const MAX_FRAME_LEN: usize = 67108864;

/// Why a frame header is refused.
#[derive(Debug, Clone, Copy, PartialEq, Eq, Structural)]
pub enum FrameError {
    TooLarge,
}

/// The 4 big-endian bytes of `n`.
pub open spec fn be_bytes(n: u32) -> Seq<u8> {
    seq![(n / 0x1000000) as u8, ((n / 0x10000) % 0x100) as u8, ((n / 0x100) % 0x100) as u8, (n % 0x100) as u8]
}

/// The number that 4 big-endian bytes stand for.
pub open spec fn be_value(b: Seq<u8>) -> int {
    b[0] * 0x1000000 + b[1] * 0x10000 + b[2] * 0x100 + b[3]
}

/// Turn a message of the state machine into a wire message from `from`;
/// returns the receiver with it.
pub fn to_wire(from: u64, msg: OutboundMsg) -> (r: (u64, RpcMessage))
    ensures
        match msg {
            OutboundMsg::RequestVote { to, args } => r == (
                to,
                RpcMessage::RequestVote(Envelope { from, to, payload: args }),
            ),
            OutboundMsg::AppendEntries { to, args } => r == (
                to,
                RpcMessage::AppendEntries(Envelope { from, to, payload: args }),
            ),
            OutboundMsg::InstallSnapshot { to, args } => r == (
                to,
                RpcMessage::InstallSnapshot(Envelope { from, to, payload: args }),
            ),
        },
{
    match msg {
        OutboundMsg::RequestVote { to, args } => (
            to,
            RpcMessage::RequestVote(Envelope { from, to, payload: args }),
        ),
        OutboundMsg::AppendEntries { to, args } => (
            to,
            RpcMessage::AppendEntries(Envelope { from, to, payload: args }),
        ),
        OutboundMsg::InstallSnapshot { to, args } => (
            to,
            RpcMessage::InstallSnapshot(Envelope { from, to, payload: args }),
        ),
    }
}

/// The length prefix of a frame whose body has `body_len` bytes: the
/// length as a `u32` (wrapping, as a cast does), big-endian.
pub fn frame_header(body_len: usize) -> (r: [u8; 4])
    ensures
        r@ == be_bytes(body_len as u32),
{
    let n = body_len as u32;
    let r = [(n / 0x1000000) as u8, ((n / 0x10000) % 0x100) as u8, ((n / 0x100) % 0x100) as u8, (n % 0x100) as u8];
    assert(r@ =~= be_bytes(n));
    r
}

/// Read the body length from a frame's prefix; a length above
/// `MAX_FRAME_LEN` is refused.
pub fn frame_body_len(header: [u8; 4]) -> (r: Result<usize, FrameError>)
    ensures
        be_value(header@) <= MAX_FRAME_LEN ==> r == Ok::<usize, FrameError>(be_value(header@) as usize),
        be_value(header@) > MAX_FRAME_LEN ==> r == Err::<usize, FrameError>(FrameError::TooLarge),
{
    let len: u64 = header[0] as u64 * 0x1000000 + header[1] as u64 * 0x10000 + header[2] as u64 * 0x100
        + header[3] as u64;
    if len > MAX_FRAME_LEN as u64 {
        return Err(FrameError::TooLarge);
    }
    Ok(len as usize)
}

/// Reading back a frame's prefix gives the length it was written with, for
/// every body a node accepts.
pub proof fn law_frame_header_round_trip(n: usize)
    requires
        n <= MAX_FRAME_LEN,
    ensures
        be_value(be_bytes(n as u32)) == n,
        be_value(be_bytes(n as u32)) <= MAX_FRAME_LEN,
{
    let x = n as u32;
    assert(x == n);
    let b = be_bytes(x);
    assert(b[0] == x / 0x1000000);
    assert(b[1] == (x / 0x10000) % 0x100);
    assert(b[2] == (x / 0x100) % 0x100);
    assert(b[3] == x % 0x100);
    assert(x / 0x1000000 * 0x1000000 + (x / 0x10000) % 0x100 * 0x10000 + (x / 0x100) % 0x100 * 0x100 + x
        % 0x100 == x) by (nonlinear_arith)
        requires
            x < 0x100000000,
    ;
}

} // verus!
