//! The wire-format message schema.
//!
//! Three message families travel as `\0`-delimited JSON frames: peer-to-peer
//! messages ([`RemoteMsg`]), editor-to-daemon messages ([`IpcClientMsg`]) and
//! daemon-to-editor replies ([`IpcClientResponse`]).  The router consumes
//! both inbound families wrapped in a [`Msg`] envelope that records where the
//! event came from.

use vstd::prelude::*;

use crate::addr::Addr;
use crate::clients::ClientInfoV;
use crate::paths::RelPath;
use crate::registry::{FsDiff, FsDiffV};

verus! {

/// An in-buffer text splice: replace `old_len` bytes at byte offset `pos`
/// with `new_str`.  The router relays these verbatim, keyed by path.
#[derive(Debug, PartialEq, Eq)]
pub struct BufferDiff {
    pub pos: u32,
    pub old_len: u32,
    pub new_str: String,
}

/// The mathematical value of a [`BufferDiff`].
pub struct BufferDiffV {
    pub pos: u32,
    pub old_len: u32,
    pub new_str: Seq<char>,
}

impl View for BufferDiff {
    type V = BufferDiffV;

    open spec fn view(&self) -> BufferDiffV {
        BufferDiffV { pos: self.pos, old_len: self.old_len, new_str: self.new_str@ }
    }
}

impl Clone for BufferDiff {
    fn clone(&self) -> (r: Self)
        ensures
            r@ == self@,
    {
        BufferDiff { pos: self.pos, old_len: self.old_len, new_str: self.new_str.clone() }
    }
}

/// What a peer publishes about itself: the address other peers should dial.
#[derive(Debug, PartialEq, Eq, Structural, Clone, Copy)]
pub struct PeerInfo {
    pub advertised_addr: Addr,
}

/// A snapshot of one daemon's connections, sent in reply to an info request.
#[derive(Debug, PartialEq, Eq)]
pub struct IpcClientInfo {
    pub addr: Addr,
    pub peers: Vec<PeerInfo>,
    pub attached_clients: Vec<crate::clients::AttachedIpcClientInfo>,
}

/// The mathematical value of an [`IpcClientInfo`].
pub struct IpcClientInfoV {
    pub addr: Addr,
    pub peers: Seq<PeerInfo>,
    pub attached_clients: Seq<ClientInfoV>,
}

impl View for IpcClientInfo {
    type V = IpcClientInfoV;

    open spec fn view(&self) -> IpcClientInfoV {
        IpcClientInfoV {
            addr: self.addr,
            peers: self.peers@,
            attached_clients: self.attached_clients@.map_values(
                |c: crate::clients::AttachedIpcClientInfo| c@,
            ),
        }
    }
}

/// A message between two daemons.
#[derive(Debug, PartialEq, Eq)]
pub enum RemoteMsg {
    FsDiff(FsDiff),
    BufferDiff(RelPath, BufferDiff),
    AddPeer(Addr),
    Startup(Addr),
    LocalDisconnect,
}

/// The mathematical value of a [`RemoteMsg`].
pub enum RemoteMsgV {
    FsDiff(FsDiffV),
    BufferDiff(Seq<char>, BufferDiffV),
    AddPeer(Addr),
    Startup(Addr),
    LocalDisconnect,
}

impl View for RemoteMsg {
    type V = RemoteMsgV;

    open spec fn view(&self) -> RemoteMsgV {
        match self {
            RemoteMsg::FsDiff(d) => RemoteMsgV::FsDiff(d@),
            RemoteMsg::BufferDiff(p, b) => RemoteMsgV::BufferDiff(p@, b@),
            RemoteMsg::AddPeer(a) => RemoteMsgV::AddPeer(*a),
            RemoteMsg::Startup(a) => RemoteMsgV::Startup(*a),
            RemoteMsg::LocalDisconnect => RemoteMsgV::LocalDisconnect,
        }
    }
}

impl Clone for RemoteMsg {
    fn clone(&self) -> (r: Self)
        ensures
            r@ == self@,
    {
        match self {
            RemoteMsg::FsDiff(d) => RemoteMsg::FsDiff(d.clone()),
            RemoteMsg::BufferDiff(p, b) => RemoteMsg::BufferDiff(p.clone(), b.clone()),
            RemoteMsg::AddPeer(a) => RemoteMsg::AddPeer(*a),
            RemoteMsg::Startup(a) => RemoteMsg::Startup(*a),
            RemoteMsg::LocalDisconnect => RemoteMsg::LocalDisconnect,
        }
    }
}

/// A message from an attached editor to its daemon.
#[derive(Debug, PartialEq, Eq)]
pub enum IpcClientMsg {
    ShutdownRequest,
    InfoRequest,
    AttachRequest { path: RelPath, desc: String },
    BufferDiff(BufferDiff),
    LocalDisconnect,
}

/// The mathematical value of an [`IpcClientMsg`].
pub enum IpcClientMsgV {
    ShutdownRequest,
    InfoRequest,
    AttachRequest { path: Seq<char>, desc: Seq<char> },
    BufferDiff(BufferDiffV),
    LocalDisconnect,
}

impl View for IpcClientMsg {
    type V = IpcClientMsgV;

    open spec fn view(&self) -> IpcClientMsgV {
        match self {
            IpcClientMsg::ShutdownRequest => IpcClientMsgV::ShutdownRequest,
            IpcClientMsg::InfoRequest => IpcClientMsgV::InfoRequest,
            IpcClientMsg::AttachRequest { path, desc } => IpcClientMsgV::AttachRequest {
                path: path@,
                desc: desc@,
            },
            IpcClientMsg::BufferDiff(b) => IpcClientMsgV::BufferDiff(b@),
            IpcClientMsg::LocalDisconnect => IpcClientMsgV::LocalDisconnect,
        }
    }
}

/// A message from a daemon to an attached editor.
#[derive(Debug, PartialEq, Eq)]
pub enum IpcClientResponse {
    Info(IpcClientInfo),
    BufferDiff(BufferDiff),
    LocalDisconnect,
    RemoteDisconnect,
}

/// The mathematical value of an [`IpcClientResponse`].
pub enum IpcClientResponseV {
    Info(IpcClientInfoV),
    BufferDiff(BufferDiffV),
    LocalDisconnect,
    RemoteDisconnect,
}

impl View for IpcClientResponse {
    type V = IpcClientResponseV;

    open spec fn view(&self) -> IpcClientResponseV {
        match self {
            IpcClientResponse::Info(i) => IpcClientResponseV::Info(i@),
            IpcClientResponse::BufferDiff(b) => IpcClientResponseV::BufferDiff(b@),
            IpcClientResponse::LocalDisconnect => IpcClientResponseV::LocalDisconnect,
            IpcClientResponse::RemoteDisconnect => IpcClientResponseV::RemoteDisconnect,
        }
    }
}

impl Clone for IpcClientResponse {
    fn clone(&self) -> (r: Self)
        ensures
            r@ == self@,
    {
        match self {
            IpcClientResponse::Info(i) => IpcClientResponse::Info(
                IpcClientInfo {
                    addr: i.addr,
                    peers: clone_peer_infos(&i.peers),
                    attached_clients: clone_client_infos(&i.attached_clients),
                },
            ),
            IpcClientResponse::BufferDiff(b) => IpcClientResponse::BufferDiff(b.clone()),
            IpcClientResponse::LocalDisconnect => IpcClientResponse::LocalDisconnect,
            IpcClientResponse::RemoteDisconnect => IpcClientResponse::RemoteDisconnect,
        }
    }
}

/// Clone a list of peer records, keeping every value.
fn clone_peer_infos(v: &Vec<PeerInfo>) -> (r: Vec<PeerInfo>)
    ensures
        r@ == v@,
{
    let mut out: Vec<PeerInfo> = Vec::new();
    let mut i: usize = 0;
    while i < v.len()
        invariant
            i <= v@.len(),
            out@ == v@.subrange(0, i as int),
        decreases v@.len() - i,
    {
        out.push(v[i]);
        proof {
            assert(out@ =~= v@.subrange(0, i + 1 as int));
        }
        i = i + 1;
    }
    proof {
        assert(out@ =~= v@);
    }
    out
}

/// Clone a list of client identities, keeping every record.
fn clone_client_infos(
    v: &Vec<crate::clients::AttachedIpcClientInfo>,
) -> (r: Vec<crate::clients::AttachedIpcClientInfo>)
    ensures
        r@.map_values(|c: crate::clients::AttachedIpcClientInfo| c@) == v@.map_values(
            |c: crate::clients::AttachedIpcClientInfo| c@,
        ),
{
    let mut out: Vec<crate::clients::AttachedIpcClientInfo> = Vec::new();
    let mut i: usize = 0;
    while i < v.len()
        invariant
            i <= v@.len(),
            out@.len() == i,
            forall|j: int| 0 <= j < i ==> (#[trigger] out@[j])@ == v@[j]@,
        decreases v@.len() - i,
    {
        out.push(v[i].clone());
        i = i + 1;
    }
    proof {
        assert(out@.map_values(|c: crate::clients::AttachedIpcClientInfo| c@) =~= v@.map_values(
            |c: crate::clients::AttachedIpcClientInfo| c@,
        ));
    }
    out
}

/// Where an inbound event came from: the local filesystem watcher, a peer
/// socket, or an attached editor's IPC socket.
#[derive(Debug, PartialEq, Eq, Structural, Clone, Copy)]
pub enum MsgSource {
    Inotify,
    Peer(Addr),
    IpcClient(Addr),
}

/// The body of an inbound event.
#[derive(Debug, PartialEq, Eq)]
pub enum MsgBody {
    Remote(RemoteMsg),
    IpcClient(IpcClientMsg),
}

/// The mathematical value of a [`MsgBody`].
pub enum MsgBodyV {
    Remote(RemoteMsgV),
    IpcClient(IpcClientMsgV),
}

impl View for MsgBody {
    type V = MsgBodyV;

    open spec fn view(&self) -> MsgBodyV {
        match self {
            MsgBody::Remote(m) => MsgBodyV::Remote(m@),
            MsgBody::IpcClient(m) => MsgBodyV::IpcClient(m@),
        }
    }
}

/// One inbound event on the router's queue.
#[derive(Debug)]
pub struct Msg {
    pub body: MsgBody,
    pub source: MsgSource,
}

/// The mathematical value of a [`Msg`].
pub struct MsgV {
    pub body: MsgBodyV,
    pub source: MsgSource,
}

impl View for Msg {
    type V = MsgV;

    open spec fn view(&self) -> MsgV {
        MsgV { body: self.body@, source: self.source }
    }
}

/// How the attach front-end frames buffer diffs on its standard streams.
#[derive(Debug, Clone, Copy, PartialEq, Eq, Structural)]
pub enum AttachMode {
    Json,
    Csv,
}

/// What a session key file records: the daemon's IPC port and process id.
#[derive(Debug, PartialEq, Eq, Structural, Clone, Copy)]
pub struct SessionData {
    pub port: u16,
    pub pid: i32,
}

} // verus!
