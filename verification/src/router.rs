//! The router: the daemon's single-owner event loop.
//!
//! Every inbound event — a watcher diff, a peer frame, an editor message —
//! lands on one queue, and [`RouterState::step`] is the sole authority that
//! reconciles it against the registry, the peer table and the attached-client
//! table.  `step` performs no I/O: it returns the list of [`Action`]s the
//! surrounding process must carry out (write a frame to a peer, reply to an
//! editor, apply a diff to disk, dial a peer, stream a snapshot, shut down).
//! Echo suppression lives here: a diff that does not change the registry is
//! dropped, which is what breaks replication loops across the mesh.

use vstd::prelude::*;

use crate::addr::Addr;
use crate::clients::{AttachedClients, AttachedIpcClient, AttachedIpcClientInfo, ClientInfoV};
use crate::errors::CollabError;
use crate::messages::{
    BufferDiff, BufferDiffV, IpcClientInfo, IpcClientMsg, IpcClientMsgV, IpcClientResponse,
    IpcClientResponseV, IpcClientInfoV, Msg, MsgBody, MsgBodyV, MsgSource, MsgV, PeerInfo,
    RemoteMsg, RemoteMsgV,
};
use crate::paths::{is_rel_path, RelPath};
use crate::registry::{
    diff_paths_wf, spec_changes_register, spec_register, spec_register_ok, FsDiff, FsDiffV,
    Registry,
};

verus! {

/// One unit of work the router asks its surroundings to perform.
#[derive(Debug)]
pub enum Action {
    /// Write this message to the peer connected at this address.
    SendPeer(Addr, RemoteMsg),
    /// Write this reply to the attached editor at this address.
    SendClient(Addr, IpcClientResponse),
    /// Reflect this diff on the local filesystem.
    ApplyDiff(FsDiff),
    /// Dial this address as a new peer, without a startup payload.
    ConnectPeer(Addr),
    /// Load the filesystem and stream it to this peer through
    /// [`RouterState::register_snapshot`].
    SendSnapshot(Addr),
    /// Remove the session key and exit.
    Shutdown,
}

/// The mathematical value of an [`Action`].
pub enum ActionV {
    SendPeer(Addr, RemoteMsgV),
    SendClient(Addr, IpcClientResponseV),
    ApplyDiff(FsDiffV),
    ConnectPeer(Addr),
    SendSnapshot(Addr),
    Shutdown,
}

impl View for Action {
    type V = ActionV;

    open spec fn view(&self) -> ActionV {
        match self {
            Action::SendPeer(a, m) => ActionV::SendPeer(*a, m@),
            Action::SendClient(a, m) => ActionV::SendClient(*a, m@),
            Action::ApplyDiff(d) => ActionV::ApplyDiff(d@),
            Action::ConnectPeer(a) => ActionV::ConnectPeer(*a),
            Action::SendSnapshot(a) => ActionV::SendSnapshot(*a),
            Action::Shutdown => ActionV::Shutdown,
        }
    }
}

/// The views of a list of actions.
pub open spec fn action_views(s: Seq<Action>) -> Seq<ActionV> {
    s.map_values(|a: Action| a@)
}

/// The peer map a peer list denotes; later entries win.
pub open spec fn peers_map_of(s: Seq<(Addr, PeerInfo)>) -> Map<Addr, PeerInfo>
    decreases s.len(),
{
    if s.len() == 0 {
        Map::empty()
    } else {
        peers_map_of(s.drop_last()).insert(s.last().0, s.last().1)
    }
}

proof fn lemma_peers_map_domain(s: Seq<(Addr, PeerInfo)>, a: Addr)
    ensures
        peers_map_of(s).contains_key(a) <==> exists|i: int|
            0 <= i < s.len() && #[trigger] s[i].0 == a,
    decreases s.len(),
{
    if s.len() > 0 {
        lemma_peers_map_domain(s.drop_last(), a);
        if s.last().0 == a {
            assert(s[s.len() - 1].0 == a);
        } else {
            if peers_map_of(s).contains_key(a) {
                let i = choose|i: int|
                    0 <= i < s.drop_last().len() && #[trigger] s.drop_last()[i].0 == a;
                assert(s[i].0 == a);
            }
            if exists|i: int| 0 <= i < s.len() && #[trigger] s[i].0 == a {
                let i = choose|i: int| 0 <= i < s.len() && #[trigger] s[i].0 == a;
                assert(s.drop_last()[i].0 == a);
            }
        }
    }
}

proof fn lemma_peers_map_at(s: Seq<(Addr, PeerInfo)>, i: int)
    requires
        forall|a: int, b: int| 0 <= a < b < s.len() ==> s[a].0 != s[b].0,
        0 <= i < s.len(),
    ensures
        peers_map_of(s).contains_key(s[i].0),
        peers_map_of(s)[s[i].0] == s[i].1,
    decreases s.len(),
{
    if i < s.len() - 1 {
        assert(forall|a: int, b: int| 0 <= a < b < s.drop_last().len() ==>
            s.drop_last()[a].0 != s.drop_last()[b].0);
        lemma_peers_map_at(s.drop_last(), i);
        assert(s.drop_last()[i] == s[i]);
        assert(s[i].0 != s.last().0);
    }
}

/// The diff fan-out sent to every peer, in table order.
pub open spec fn fanout_diff_actions(ps: Seq<(Addr, PeerInfo)>, d: FsDiffV) -> Seq<ActionV> {
    ps.map_values(|p: (Addr, PeerInfo)| ActionV::SendPeer(p.0, RemoteMsgV::FsDiff(d)))
}

/// The buffer-diff fan-out sent to every peer, in table order.
pub open spec fn fanout_buffer_peer_actions(
    ps: Seq<(Addr, PeerInfo)>,
    path: Seq<char>,
    bd: BufferDiffV,
) -> Seq<ActionV> {
    ps.map_values(|p: (Addr, PeerInfo)| ActionV::SendPeer(p.0, RemoteMsgV::BufferDiff(path, bd)))
}

/// The buffer-diff fan-out to every client of a bucket, in bucket order.
pub open spec fn client_buffer_actions(bucket: Seq<ClientInfoV>, bd: BufferDiffV) -> Seq<ActionV> {
    bucket.map_values(|c: ClientInfoV| ActionV::SendClient(c.addr, IpcClientResponseV::BufferDiff(bd)))
}

/// A bucket with the clients at one address removed.
pub open spec fn except_filter(bucket: Seq<ClientInfoV>, except: Addr) -> Seq<ClientInfoV> {
    bucket.filter(|c: ClientInfoV| c.addr != except)
}

/// The buffer-diff fan-out to a bucket with the sender excluded.
pub open spec fn client_buffer_actions_except(
    bucket: Seq<ClientInfoV>,
    except: Addr,
    bd: BufferDiffV,
) -> Seq<ActionV> {
    client_buffer_actions(except_filter(bucket, except), bd)
}

/// The peer-list messages sent to a freshly announced peer: one `AddPeer`
/// for every table entry whose advertised address differs from the new
/// peer's own.
/// The peer entries whose advertised address differs from `adv`.
pub open spec fn adv_filter(ps: Seq<(Addr, PeerInfo)>, adv: Addr) -> Seq<(Addr, PeerInfo)> {
    ps.filter(|p: (Addr, PeerInfo)| p.1.advertised_addr != adv)
}

pub open spec fn addpeer_actions(
    ps: Seq<(Addr, PeerInfo)>,
    to: Addr,
    adv: Addr,
) -> Seq<ActionV> {
    adv_filter(ps, adv).map_values(
        |p: (Addr, PeerInfo)| ActionV::SendPeer(to, RemoteMsgV::AddPeer(p.1.advertised_addr)),
    )
}

/// The frames that stream a registered snapshot to one peer.
pub open spec fn snapshot_actions(sent: Seq<FsDiffV>, to: Addr) -> Seq<ActionV> {
    sent.map_values(|d: FsDiffV| ActionV::SendPeer(to, RemoteMsgV::FsDiff(d)))
}

/// The published records of the peer table, in order.
pub open spec fn peer_infos_of(ps: Seq<(Addr, PeerInfo)>) -> Seq<PeerInfo> {
    ps.map_values(|p: (Addr, PeerInfo)| p.1)
}

/// Paths carried by an inbound event are valid relative paths.  Decoded
/// frames satisfy this by construction.
pub open spec fn msg_wf(m: MsgV) -> bool {
    match m.body {
        MsgBodyV::Remote(RemoteMsgV::FsDiff(d)) => diff_paths_wf(d),
        MsgBodyV::Remote(RemoteMsgV::BufferDiff(p, _)) => is_rel_path(p),
        MsgBodyV::IpcClient(IpcClientMsgV::AttachRequest { path, desc }) => is_rel_path(path),
        _ => true,
    }
}

/// The registry after a sequence of diffs is registered in order.
pub open spec fn snapshot_reg(m: Map<Seq<char>, crate::registry::FsReg>, ds: Seq<FsDiffV>) -> Map<
    Seq<char>,
    crate::registry::FsReg,
>
    decreases ds.len(),
{
    if ds.len() == 0 {
        m
    } else {
        snapshot_reg(spec_register(ds[0], m), ds.subrange(1, ds.len() as int))
    }
}

/// The diffs of a sequence that register successfully, in order; these are
/// the ones streamed onward.
pub open spec fn snapshot_sent(m: Map<Seq<char>, crate::registry::FsReg>, ds: Seq<FsDiffV>) -> Seq<
    FsDiffV,
>
    decreases ds.len(),
{
    if ds.len() == 0 {
        Seq::empty()
    } else {
        let rest = snapshot_sent(spec_register(ds[0], m), ds.subrange(1, ds.len() as int));
        if spec_register_ok(ds[0], m) {
            seq![ds[0]] + rest
        } else {
            rest
        }
    }
}

proof fn lemma_snapshot_extend(m: Map<Seq<char>, crate::registry::FsReg>, ds: Seq<FsDiffV>, d: FsDiffV)
    ensures
        snapshot_reg(m, ds.push(d)) == spec_register(d, snapshot_reg(m, ds)),
        snapshot_sent(m, ds.push(d)) == (if spec_register_ok(d, snapshot_reg(m, ds)) {
            snapshot_sent(m, ds).push(d)
        } else {
            snapshot_sent(m, ds)
        }),
    decreases ds.len(),
{
    reveal_with_fuel(snapshot_reg, 3);
    reveal_with_fuel(snapshot_sent, 3);
    if ds.len() == 0 {
        assert(ds.push(d)[0] == d);
        assert(ds.push(d).subrange(1, ds.push(d).len() as int) =~= Seq::<FsDiffV>::empty());
        assert(snapshot_reg(m, ds.push(d)) == snapshot_reg(
            spec_register(d, m),
            Seq::<FsDiffV>::empty(),
        ));
        assert(snapshot_reg(m, ds) == m);
        assert(snapshot_sent(m, ds) =~= Seq::<FsDiffV>::empty());
        if spec_register_ok(d, m) {
            assert(snapshot_sent(m, ds.push(d)) =~= snapshot_sent(m, ds).push(d));
        } else {
            assert(snapshot_sent(m, ds.push(d)) =~= snapshot_sent(m, ds));
        }
    } else {
        assert(ds.push(d)[0] == ds[0]);
        assert(ds.push(d).subrange(1, ds.push(d).len() as int) =~= ds.subrange(
            1,
            ds.len() as int,
        ).push(d));
        lemma_snapshot_extend(spec_register(ds[0], m), ds.subrange(1, ds.len() as int), d);
        assert(snapshot_reg(m, ds.push(d)) == snapshot_reg(
            spec_register(ds[0], m),
            ds.subrange(1, ds.len() as int).push(d),
        ));
        assert(snapshot_reg(m, ds) == snapshot_reg(
            spec_register(ds[0], m),
            ds.subrange(1, ds.len() as int),
        ));
        if spec_register_ok(d, snapshot_reg(m, ds)) {
            assert(snapshot_sent(m, ds.push(d)) =~= snapshot_sent(m, ds).push(d));
        } else {
            assert(snapshot_sent(m, ds.push(d)) =~= snapshot_sent(m, ds));
        }
    }
}

/// The views of a list of diffs.
pub open spec fn diff_views(s: Seq<FsDiff>) -> Seq<FsDiffV> {
    s.map_values(|d: FsDiff| d@)
}

/// The router's state: the registry, the peer table, the attached-client
/// table, and the daemon's own listening address.  The reply channels and
/// sockets that the addresses designate are owned by the surrounding
/// process.
#[derive(Debug)]
pub struct RouterState {
    pub register: Registry,
    pub peers: Vec<(Addr, PeerInfo)>,
    pub attached_clients: AttachedClients,
    pub own_addr: Addr,
}

impl RouterState {
    /// The peer table in order.
    pub open spec fn peers_seq(&self) -> Seq<(Addr, PeerInfo)> {
        self.peers@
    }

    /// The peer table keyed by observed address.
    pub open spec fn peers_map(&self) -> Map<Addr, PeerInfo> {
        peers_map_of(self.peers@)
    }

    /// The router's internal invariant.
    pub open spec fn wf(&self) -> bool {
        &&& self.register.wf()
        &&& self.attached_clients.wf()
        &&& forall|a: int, b: int|
            0 <= a < b < self.peers@.len() ==> self.peers@[a].0 != self.peers@[b].0
    }

    /// A fresh router with no peers, no clients and an empty registry.
    pub fn new(own_addr: Addr) -> (r: RouterState)
        ensures
            r.wf(),
            r.register@ == Map::<Seq<char>, crate::registry::FsReg>::empty(),
            r.peers_seq() == Seq::<(Addr, PeerInfo)>::empty(),
            r.attached_clients.addr_map() == Map::<Addr, ClientInfoV>::empty(),
            r.own_addr == own_addr,
    {
        RouterState {
            register: Registry::new(),
            peers: Vec::new(),
            attached_clients: AttachedClients::new(),
            own_addr,
        }
    }

    /// Index of the peer entry for an address.
    fn find_peer(&self, addr: Addr) -> (r: Option<usize>)
        ensures
            match r {
                Some(i) => i < self.peers@.len() && self.peers@[i as int].0 == addr,
                None => forall|i: int|
                    0 <= i < self.peers@.len() ==> (#[trigger] self.peers@[i]).0 != addr,
            },
    {
        let mut i: usize = 0;
        while i < self.peers.len()
            invariant
                i <= self.peers@.len(),
                forall|j: int| 0 <= j < i ==> (#[trigger] self.peers@[j]).0 != addr,
            decreases self.peers@.len() - i,
        {
            let p = self.peers[i].0;
            if p.ip0 == addr.ip0 && p.ip1 == addr.ip1 && p.ip2 == addr.ip2 && p.ip3 == addr.ip3
                && p.port == addr.port {
                return Some(i);
            }
            i = i + 1;
        }
        None
    }

    /// Record a newly connected peer under its observed address; until its
    /// startup frame arrives, its advertised address is the observed one.
    pub fn peer_connected(&mut self, addr: Addr)
        requires
            old(self).wf(),
        ensures
            final(self).wf(),
            final(self).peers_map() == old(self).peers_map().insert(
                addr,
                PeerInfo { advertised_addr: addr },
            ),
            old(self).peers_map().contains_key(addr) ==> final(self).peers_seq().len() == old(self).peers_seq().len(),
            !old(self).peers_map().contains_key(addr) ==> final(self).peers_seq() == old(self).peers_seq().push((addr, PeerInfo { advertised_addr: addr })),
            final(self).register@ == old(self).register@,
            final(self).attached_clients == old(self).attached_clients,
            final(self).own_addr == old(self).own_addr,
    {
        let info = PeerInfo { advertised_addr: addr };
        match self.find_peer(addr) {
            Some(i) => {
                proof {
                    lemma_peers_map_at(self.peers@, i as int);
                }
                let ghost old_ps = self.peers@;
                self.peers[i] = (addr, info);
                proof {
                    lemma_peers_map_update(old_ps, i as int, (addr, info));
                    lemma_peers_map_domain(old_ps, addr);
                    assert(forall|x: int| 0 <= x < self.peers@.len() ==>
                        (#[trigger] self.peers@[x]).0 == old_ps[x].0);
                }
            },
            None => {
                proof {
                    lemma_peers_map_domain(self.peers@, addr);
                }
                let ghost old_ps = self.peers@;
                self.peers.push((addr, info));
                proof {
                    assert(self.peers@.drop_last() =~= old_ps);
                    assert(forall|x: int| 0 <= x < old_ps.len() ==> #[trigger] self.peers@[x]
                        == old_ps[x]);
                    assert(self.peers@.last().0 == addr);
                    assert(!peers_map_of(old_ps).contains_key(addr));
                    assert(self.peers_map() =~= peers_map_of(old_ps).insert(
                        addr,
                        PeerInfo { advertised_addr: addr },
                    ));
                }
            },
        }
    }

    /// Drop the peer recorded under an address, if any.
    pub fn peer_disconnected(&mut self, addr: Addr)
        requires
            old(self).wf(),
        ensures
            final(self).wf(),
            final(self).peers_map() == old(self).peers_map().remove(addr),
            !old(self).peers_map().contains_key(addr) ==> final(self).peers_seq() == old(self).peers_seq(),
            final(self).register@ == old(self).register@,
            final(self).attached_clients == old(self).attached_clients,
            final(self).own_addr == old(self).own_addr,
    {
        match self.find_peer(addr) {
            Some(i) => {
                proof {
                    lemma_peers_map_at(self.peers@, i as int);
                    lemma_peers_map_remove(self.peers@, i as int);
                    let s = self.peers@;
                    assert(forall|a: int| 0 <= a < s.remove(i as int).len() ==>
                        #[trigger] s.remove(i as int)[a] == (if a < i {
                            s[a]
                        } else {
                            s[a + 1]
                        }));
                }
                let _ = self.peers.remove(i);
            },
            None => {
                proof {
                    lemma_peers_map_domain(self.peers@, addr);
                    assert(!self.peers_map().contains_key(addr));
                    assert(self.peers_map().remove(addr) =~= self.peers_map());
                }
            },
        }
    }
}

/// Nothing observable changed between two router states.
pub open spec fn frozen(pre: RouterState, post: RouterState) -> bool {
    &&& post.register@ == pre.register@
    &&& post.peers@ == pre.peers@
    &&& post.attached_clients == pre.attached_clients
    &&& post.own_addr == pre.own_addr
}

/// The `(body, source)` pairs the dispatch table acts on; everything else
/// is dropped without effect.
pub open spec fn routed(m: MsgV) -> bool {
    match m.body {
        MsgBodyV::Remote(RemoteMsgV::FsDiff(_)) => true,
        MsgBodyV::Remote(RemoteMsgV::BufferDiff(_, _)) => m.source is Peer,
        MsgBodyV::Remote(RemoteMsgV::AddPeer(_)) => true,
        MsgBodyV::Remote(RemoteMsgV::Startup(_)) => m.source is Peer,
        MsgBodyV::Remote(RemoteMsgV::LocalDisconnect) => false,
        MsgBodyV::IpcClient(_) => m.source is IpcClient,
    }
}

proof fn lemma_filter_clients_push(s: Seq<ClientInfoV>, x: ClientInfoV, except: Addr)
    ensures
        except_filter(s.push(x), except) == (if x.addr != except {
            except_filter(s, except).push(x)
        } else {
            except_filter(s, except)
        }),
{
    reveal_with_fuel(Seq::<ClientInfoV>::filter, 2);
    assert(s.push(x).drop_last() =~= s);
    assert(s.push(x).last() == x);
}

proof fn lemma_filter_peers_push(s: Seq<(Addr, PeerInfo)>, x: (Addr, PeerInfo), adv: Addr)
    ensures
        adv_filter(s.push(x), adv) == (if x.1.advertised_addr != adv {
            adv_filter(s, adv).push(x)
        } else {
            adv_filter(s, adv)
        }),
{
    reveal_with_fuel(Seq::<(Addr, PeerInfo)>::filter, 2);
    assert(s.push(x).drop_last() =~= s);
    assert(s.push(x).last() == x);
}

impl RouterState {
    /// Dispatch one inbound event: reconcile it against the state and
    /// return the work to perform.  An error reports a per-event failure —
    /// an edit from an unattached address, or a startup frame from an
    /// unknown peer — after which the state is unchanged and the loop goes
    /// on.
    #[verifier::loop_isolation(false)]
    pub fn step(&mut self, msg: Msg) -> (r: Result<Vec<Action>, CollabError>)
        requires
            old(self).wf(),
            msg_wf(msg@),
        ensures
            final(self).wf(),
            final(self).own_addr == old(self).own_addr,
            // a diff that changes nothing is dropped: echo suppression
            msg@.body is Remote && msg@.body->Remote_0 is FsDiff && !spec_changes_register(
                msg@.body->Remote_0->FsDiff_0,
                old(self).register@,
            ) ==> (r matches Ok(acts) && action_views(acts@) == Seq::<ActionV>::empty() && frozen(
                *old(self),
                *final(self),
            )),
            // a diff that carries news is registered
            msg@.body is Remote && msg@.body->Remote_0 is FsDiff && spec_changes_register(
                msg@.body->Remote_0->FsDiff_0,
                old(self).register@,
            ) ==> (r is Ok && final(self).register@ == spec_register(
                msg@.body->Remote_0->FsDiff_0,
                old(self).register@,
            ) && final(self).peers@ == old(self).peers@ && final(self).attached_clients == old(self).attached_clients),
            // ... and is applied to disk when a peer sent it,
            msg@.body is Remote && msg@.body->Remote_0 is FsDiff && spec_changes_register(
                msg@.body->Remote_0->FsDiff_0,
                old(self).register@,
            ) && msg@.source is Peer ==> (r matches Ok(acts) && action_views(acts@) == seq![
                ActionV::ApplyDiff(msg@.body->Remote_0->FsDiff_0),
            ]),
            // ... forwarded to every peer when the local watcher saw it,
            msg@.body is Remote && msg@.body->Remote_0 is FsDiff && spec_changes_register(
                msg@.body->Remote_0->FsDiff_0,
                old(self).register@,
            ) && msg@.source is Inotify ==> (r matches Ok(acts) && action_views(acts@)
                == fanout_diff_actions(old(self).peers@, msg@.body->Remote_0->FsDiff_0)),
            // ... and dropped when an editor claims to have produced it
            msg@.body is Remote && msg@.body->Remote_0 is FsDiff && spec_changes_register(
                msg@.body->Remote_0->FsDiff_0,
                old(self).register@,
            ) && msg@.source is IpcClient ==> (r matches Ok(acts) && action_views(acts@) == Seq::<
                ActionV,
            >::empty()),
            // an attach request inserts the client into the table
            msg@.body is IpcClient && msg@.body->IpcClient_0 is AttachRequest && msg@.source
                is IpcClient ==> (r matches Ok(acts) && action_views(acts@) == Seq::<
                ActionV,
            >::empty() && final(self).register@ == old(self).register@ && final(self).peers@ == old(self).peers@ && final(self).attached_clients.addr_map() == old(self).attached_clients.addr_map().insert(
                msg@.source->IpcClient_0,
                (ClientInfoV {
                    path: msg@.body->IpcClient_0->AttachRequest_path,
                    addr: msg@.source->IpcClient_0,
                    desc: msg@.body->IpcClient_0->AttachRequest_desc,
                }),
            ) && (!old(self).attached_clients.addr_map().contains_key(msg@.source->IpcClient_0)
                ==> final(self).attached_clients.bucket_seq(
                msg@.body->IpcClient_0->AttachRequest_path,
            ) == old(self).attached_clients.bucket_seq(
                msg@.body->IpcClient_0->AttachRequest_path,
            ).push(
                (ClientInfoV {
                    path: msg@.body->IpcClient_0->AttachRequest_path,
                    addr: msg@.source->IpcClient_0,
                    desc: msg@.body->IpcClient_0->AttachRequest_desc,
                }),
            ))),
            // a local disconnect removes whatever client the address held
            msg@.body is IpcClient && msg@.body->IpcClient_0 is LocalDisconnect && msg@.source
                is IpcClient ==> (r matches Ok(acts) && action_views(acts@) == Seq::<
                ActionV,
            >::empty() && final(self).register@ == old(self).register@ && final(self).peers@ == old(self).peers@ && final(self).attached_clients.addr_map() == old(self).attached_clients.addr_map().remove(msg@.source->IpcClient_0)),
            // an edit from an unattached address is a per-event error
            msg@.body is IpcClient && msg@.body->IpcClient_0 is BufferDiff && msg@.source
                is IpcClient && !old(self).attached_clients.addr_map().contains_key(
                msg@.source->IpcClient_0,
            ) ==> (r is Err && frozen(*old(self), *final(self))),
            // an editor's edit fans out to its file's other clients and to every peer
            msg@.body is IpcClient && msg@.body->IpcClient_0 is BufferDiff && msg@.source
                is IpcClient && old(self).attached_clients.addr_map().contains_key(
                msg@.source->IpcClient_0,
            ) ==> (r matches Ok(acts) && frozen(*old(self), *final(self)) && action_views(acts@)
                == client_buffer_actions_except(
                old(self).attached_clients.bucket_seq(
                    old(self).attached_clients.addr_map()[msg@.source->IpcClient_0].path,
                ),
                msg@.source->IpcClient_0,
                msg@.body->IpcClient_0->BufferDiff_0,
            ) + fanout_buffer_peer_actions(
                old(self).peers@,
                old(self).attached_clients.addr_map()[msg@.source->IpcClient_0].path,
                msg@.body->IpcClient_0->BufferDiff_0,
            )),
            // a peer's edit fans out to this daemon's clients only: no rebroadcast
            msg@.body is Remote && msg@.body->Remote_0 is BufferDiff && msg@.source is Peer ==> (
            r matches Ok(acts) && frozen(*old(self), *final(self)) && action_views(acts@)
                == client_buffer_actions(
                old(self).attached_clients.bucket_seq(msg@.body->Remote_0->BufferDiff_0),
                msg@.body->Remote_0->BufferDiff_1,
            )),
            // a peer referral is dialled
            msg@.body is Remote && msg@.body->Remote_0 is AddPeer ==> (r matches Ok(acts)
                && frozen(*old(self), *final(self)) && action_views(acts@) == seq![
                ActionV::ConnectPeer(msg@.body->Remote_0->AddPeer_0),
            ]),
            // a startup frame from an unknown peer is a per-event error
            msg@.body is Remote && msg@.body->Remote_0 is Startup && msg@.source is Peer
                && !peers_map_of(old(self).peers@).contains_key(msg@.source->Peer_0) ==> (r is Err
                && frozen(*old(self), *final(self))),
            // a startup frame records the advertised address, shares the
            // peer list and triggers the snapshot
            msg@.body is Remote && msg@.body->Remote_0 is Startup && msg@.source is Peer
                && peers_map_of(old(self).peers@).contains_key(msg@.source->Peer_0) ==> (
            r matches Ok(acts) && final(self).register@ == old(self).register@ && final(self).attached_clients == old(self).attached_clients && final(self).peers@.len() == old(self).peers@.len() && (forall|i: int|
                0 <= i < old(self).peers@.len() ==> (#[trigger] final(self).peers@[i]).0 == old(self).peers@[i].0 && final(self).peers@[i].1 == (if old(self).peers@[i].0
                    == msg@.source->Peer_0 {
                    (PeerInfo { advertised_addr: msg@.body->Remote_0->Startup_0 })
                } else {
                    old(self).peers@[i].1
                })) && action_views(acts@) == addpeer_actions(
                final(self).peers@,
                msg@.source->Peer_0,
                msg@.body->Remote_0->Startup_0,
            ).push(ActionV::SendSnapshot(msg@.source->Peer_0))),
            // a shutdown request stops the daemon
            msg@.body is IpcClient && msg@.body->IpcClient_0 is ShutdownRequest && msg@.source
                is IpcClient ==> (r matches Ok(acts) && frozen(*old(self), *final(self))
                && action_views(acts@) == seq![ActionV::Shutdown]),
            // an info request is answered with a snapshot of the tables
            msg@.body is IpcClient && msg@.body->IpcClient_0 is InfoRequest && msg@.source
                is IpcClient ==> (r matches Ok(acts) && frozen(*old(self), *final(self))
                && action_views(acts@) == seq![
                ActionV::SendClient(
                    msg@.source->IpcClient_0,
                    IpcClientResponseV::Info(
                        (IpcClientInfoV {
                            addr: old(self).own_addr,
                            peers: peer_infos_of(old(self).peers@),
                            attached_clients: old(self).attached_clients.all_seq(),
                        }),
                    ),
                ),
            ]),
            // everything else is ignored
            !routed(msg@) ==> (r matches Ok(acts) && action_views(acts@) == Seq::<
                ActionV,
            >::empty() && frozen(*old(self), *final(self))),
    {
        let Msg { body, source } = msg;
        match (body, source) {
            (MsgBody::Remote(RemoteMsg::FsDiff(diff)), src) => {
                let changes = diff.changes_register(&self.register);
                if changes {
                    proof {
                        crate::registry::lemma_echo_suppression(diff@, self.register@);
                    }
                    let res = diff.register(&mut self.register);
                    match src {
                        MsgSource::Peer(_) => {
                            let mut acts: Vec<Action> = Vec::new();
                            acts.push(Action::ApplyDiff(diff));
                            proof {
                                assert(action_views(acts@) =~= seq![
                                    ActionV::ApplyDiff(msg@.body->Remote_0->FsDiff_0),
                                ]);
                            }
                            Ok(acts)
                        },
                        MsgSource::Inotify => {
                            let mut acts: Vec<Action> = Vec::new();
                            let mut i: usize = 0;
                            while i < self.peers.len()
                                invariant
                                    i <= self.peers@.len(),
                                    action_views(acts@) == fanout_diff_actions(
                                        self.peers@.subrange(0, i as int),
                                        diff@,
                                    ),
                                decreases self.peers@.len() - i,
                            {
                                let target = self.peers[i].0;
                                acts.push(Action::SendPeer(target, RemoteMsg::FsDiff(diff.clone())));
                                proof {
                                    assert(self.peers@.subrange(0, i + 1 as int) =~= self.peers@.subrange(
                                        0,
                                        i as int,
                                    ).push(self.peers@[i as int]));
                                    assert(acts@.len() == i + 1);
                                    assert(acts@[i as int]@ == ActionV::SendPeer(
                                        self.peers@[i as int].0,
                                        RemoteMsgV::FsDiff(diff@),
                                    ));
                                    assert(action_views(acts@).len() == i + 1);
                                    assert(action_views(acts@)[i as int] == ActionV::SendPeer(
                                        self.peers@[i as int].0,
                                        RemoteMsgV::FsDiff(diff@),
                                    ));
                                    assert(forall|j: int| 0 <= j < i ==> action_views(acts@)[j]
                                        == fanout_diff_actions(
                                        self.peers@.subrange(0, i as int),
                                        diff@,
                                    )[j]);
                                    assert(fanout_diff_actions(
                                        self.peers@.subrange(0, i + 1 as int),
                                        diff@,
                                    ).len() == i + 1);
                                    assert(forall|j: int| 0 <= j <= i ==> fanout_diff_actions(
                                        self.peers@.subrange(0, i + 1 as int),
                                        diff@,
                                    )[j] == ActionV::SendPeer(
                                        self.peers@[j].0,
                                        RemoteMsgV::FsDiff(diff@),
                                    ));
                                    assert(action_views(acts@) =~= fanout_diff_actions(
                                        self.peers@.subrange(0, i + 1 as int),
                                        diff@,
                                    ));
                                }
                                i = i + 1;
                            }
                            proof {
                                assert(self.peers@.subrange(0, self.peers@.len() as int) =~= self.peers@);
                            }
                            Ok(acts)
                        },
                        MsgSource::IpcClient(_) => {
                            proof {
                                assert(action_views(Seq::<Action>::empty()) =~= Seq::<
                                    ActionV,
                                >::empty());
                            }
                            Ok(Vec::new())
                        },
                    }
                } else {
                    proof {
                        assert(action_views(Seq::<Action>::empty()) =~= Seq::<ActionV>::empty());
                    }
                    Ok(Vec::new())
                }
            },
            (MsgBody::IpcClient(IpcClientMsg::AttachRequest { path, desc }), MsgSource::IpcClient(a)) => {
                match self.attached_clients.get_addr(a) {
                    Some(existing) => {
                        self.attached_clients.remove(&existing);
                    },
                    None => {},
                }
                let info = AttachedIpcClientInfo { path, addr: a, desc };
                let client = AttachedIpcClient { info };
                proof {
                    assert(!self.attached_clients.addr_map().contains_key(a));
                    assert(old(self).attached_clients.addr_map().remove(a).insert(a, client@)
                        =~= old(self).attached_clients.addr_map().insert(a, client@));
                }
                self.attached_clients.add(client);
                proof {
                    assert(action_views(Seq::<Action>::empty()) =~= Seq::<ActionV>::empty());
                }
                Ok(Vec::new())
            },
            (MsgBody::IpcClient(IpcClientMsg::LocalDisconnect), MsgSource::IpcClient(a)) => {
                match self.attached_clients.get_addr(a) {
                    Some(existing) => {
                        self.attached_clients.remove(&existing);
                    },
                    None => {
                        proof {
                            assert(self.attached_clients.addr_map().remove(a)
                                =~= self.attached_clients.addr_map());
                        }
                    },
                }
                proof {
                    assert(action_views(Seq::<Action>::empty()) =~= Seq::<ActionV>::empty());
                }
                Ok(Vec::new())
            },
            (MsgBody::IpcClient(IpcClientMsg::BufferDiff(bd)), MsgSource::IpcClient(a)) => {
                match self.attached_clients.get_addr(a) {
                    None => Err(CollabError::new("buffer diff from an unattached address")),
                    Some(client) => {
                        let path = client.info.path.clone();
                        let bucket = self.attached_clients.get_path(&path);
                        let ghost bucket_v = self.attached_clients.bucket_seq(path@);
                        let mut acts: Vec<Action> = Vec::new();
                        let mut i: usize = 0;
                        while i < bucket.len()
                            invariant
                                i <= bucket@.len(),
                                crate::clients::client_views(bucket@) == bucket_v,
                                action_views(acts@) == client_buffer_actions_except(
                                    bucket_v.subrange(0, i as int),
                                    a,
                                    bd@,
                                ),
                            decreases bucket@.len() - i,
                        {
                            proof {
                                assert(bucket_v.subrange(0, i + 1 as int) =~= bucket_v.subrange(
                                    0,
                                    i as int,
                                ).push(bucket_v[i as int]));
                                lemma_filter_clients_push(
                                    bucket_v.subrange(0, i as int),
                                    bucket_v[i as int],
                                    a,
                                );
                            }
                            let target = bucket[i].info.addr;
                            if !(target == a) {
                                acts.push(
                                    Action::SendClient(
                                        target,
                                        IpcClientResponse::BufferDiff(bd.clone()),
                                    ),
                                );
                            }
                            proof {
                                let pre = bucket_v.subrange(0, i as int);
                                let cur = bucket_v[i as int];
                                assert(cur == bucket@[i as int]@);
                                let fpre = except_filter(pre, a);
                                let fcur = except_filter(bucket_v.subrange(0, i + 1 as int), a);
                                assert(bucket_v.subrange(0, i + 1 as int) =~= pre.push(cur));
                                assert(fcur == except_filter(pre.push(cur), a));
                                if cur.addr != a {
                                    assert(fcur == fpre.push(cur));
                                    assert(acts@[acts@.len() - 1]@ == ActionV::SendClient(
                                        cur.addr,
                                        IpcClientResponseV::BufferDiff(bd@),
                                    ));
                                    assert(forall|j: int| 0 <= j < fpre.len() ==> action_views(
                                        acts@,
                                    )[j] == client_buffer_actions(fpre, bd@)[j]);
                                    assert(action_views(acts@) =~= client_buffer_actions(fcur, bd@));
                                } else {
                                    assert(fcur == fpre);
                                    assert(action_views(acts@) =~= client_buffer_actions(fcur, bd@));
                                }
                            }
                            i = i + 1;
                        }
                        proof {
                            assert(bucket_v.subrange(0, bucket_v.len() as int) =~= bucket_v);
                        }
                        let ghost client_acts = action_views(acts@);
                        let mut i: usize = 0;
                        while i < self.peers.len()
                            invariant
                                i <= self.peers@.len(),
                                action_views(acts@) == client_acts + fanout_buffer_peer_actions(
                                    self.peers@.subrange(0, i as int),
                                    path@,
                                    bd@,
                                ),
                            decreases self.peers@.len() - i,
                        {
                            let target = self.peers[i].0;
                            acts.push(
                                Action::SendPeer(
                                    target,
                                    RemoteMsg::BufferDiff(path.clone(), bd.clone()),
                                ),
                            );
                            proof {
                                assert(self.peers@.subrange(0, i + 1 as int) =~= self.peers@.subrange(
                                    0,
                                    i as int,
                                ).push(self.peers@[i as int]));
                                assert(acts@[acts@.len() - 1]@ == ActionV::SendPeer(
                                    self.peers@[i as int].0,
                                    RemoteMsgV::BufferDiff(path@, bd@),
                                ));
                                assert(forall|j: int| 0 <= j < acts@.len() - 1 ==> action_views(
                                    acts@,
                                )[j] == (client_acts + fanout_buffer_peer_actions(
                                    self.peers@.subrange(0, i as int),
                                    path@,
                                    bd@,
                                ))[j]);
                                assert(action_views(acts@) =~= client_acts
                                    + fanout_buffer_peer_actions(
                                    self.peers@.subrange(0, i + 1 as int),
                                    path@,
                                    bd@,
                                ));
                            }
                            i = i + 1;
                        }
                        proof {
                            assert(self.peers@.subrange(0, self.peers@.len() as int) =~= self.peers@);
                        }
                        Ok(acts)
                    },
                }
            },
            (MsgBody::Remote(RemoteMsg::BufferDiff(path, bd)), MsgSource::Peer(_)) => {
                let bucket = self.attached_clients.get_path(&path);
                let ghost bucket_v = self.attached_clients.bucket_seq(path@);
                let mut acts: Vec<Action> = Vec::new();
                let mut i: usize = 0;
                while i < bucket.len()
                    invariant
                        i <= bucket@.len(),
                        crate::clients::client_views(bucket@) == bucket_v,
                        action_views(acts@) == client_buffer_actions(
                            bucket_v.subrange(0, i as int),
                            bd@,
                        ),
                    decreases bucket@.len() - i,
                {
                    let target = bucket[i].info.addr;
                    acts.push(Action::SendClient(target, IpcClientResponse::BufferDiff(bd.clone())));
                    proof {
                        assert(bucket_v.subrange(0, i + 1 as int) =~= bucket_v.subrange(
                            0,
                            i as int,
                        ).push(bucket_v[i as int]));
                        assert(bucket_v[i as int] == bucket@[i as int]@);
                        assert(acts@[i as int]@ == ActionV::SendClient(
                            bucket_v[i as int].addr,
                            IpcClientResponseV::BufferDiff(bd@),
                        ));
                        assert(forall|j: int| 0 <= j < i ==> action_views(acts@)[j]
                            == client_buffer_actions(bucket_v.subrange(0, i as int), bd@)[j]);
                        assert(action_views(acts@) =~= client_buffer_actions(
                            bucket_v.subrange(0, i + 1 as int),
                            bd@,
                        ));
                    }
                    i = i + 1;
                }
                proof {
                    assert(bucket_v.subrange(0, bucket_v.len() as int) =~= bucket_v);
                }
                Ok(acts)
            },
            (MsgBody::Remote(RemoteMsg::AddPeer(a)), _) => {
                let mut acts: Vec<Action> = Vec::new();
                acts.push(Action::ConnectPeer(a));
                proof {
                    assert(action_views(acts@) =~= seq![ActionV::ConnectPeer(a)]);
                }
                Ok(acts)
            },
            (MsgBody::Remote(RemoteMsg::Startup(adv)), MsgSource::Peer(sa)) => {
                match self.find_peer(sa) {
                    None => {
                        proof {
                            lemma_peers_map_domain(self.peers@, sa);
                        }
                        Err(CollabError::new("startup frame from an unknown peer"))
                    },
                    Some(idx) => {
                        proof {
                            lemma_peers_map_domain(self.peers@, sa);
                        }
                        let ghost old_ps = self.peers@;
                        self.peers[idx] = (sa, PeerInfo { advertised_addr: adv });
                        proof {
                            assert(forall|x: int| 0 <= x < self.peers@.len() ==>
                                (#[trigger] self.peers@[x]).0 == old_ps[x].0);
                            assert(forall|x: int| 0 <= x < self.peers@.len() && x != idx ==>
                                #[trigger] self.peers@[x] == old_ps[x]);
                        }
                        let mut acts: Vec<Action> = Vec::new();
                        let mut i: usize = 0;
                        while i < self.peers.len()
                            invariant
                                i <= self.peers@.len(),
                                action_views(acts@) == addpeer_actions(
                                    self.peers@.subrange(0, i as int),
                                    sa,
                                    adv,
                                ),
                            decreases self.peers@.len() - i,
                        {
                            proof {
                                assert(self.peers@.subrange(0, i + 1 as int) =~= self.peers@.subrange(
                                    0,
                                    i as int,
                                ).push(self.peers@[i as int]));
                                lemma_filter_peers_push(
                                    self.peers@.subrange(0, i as int),
                                    self.peers@[i as int],
                                    adv,
                                );
                            }
                            let target = self.peers[i].1.advertised_addr;
                            if !(target == adv) {
                                acts.push(Action::SendPeer(sa, RemoteMsg::AddPeer(target)));
                            }
                            proof {
                                let pre = self.peers@.subrange(0, i as int);
                                let cur = self.peers@[i as int];
                                assert(self.peers@.subrange(0, i + 1 as int) =~= pre.push(cur));
                                assert(adv_filter(self.peers@.subrange(0, i + 1 as int), adv)
                                    == adv_filter(pre.push(cur), adv));
                                if cur.1.advertised_addr != adv {
                                    assert(adv_filter(pre.push(cur), adv) == adv_filter(
                                        pre,
                                        adv,
                                    ).push(cur));
                                    assert(acts@[acts@.len() - 1]@ == ActionV::SendPeer(
                                        sa,
                                        RemoteMsgV::AddPeer(cur.1.advertised_addr),
                                    ));
                                    assert(forall|j: int| 0 <= j < acts@.len() - 1 ==> action_views(
                                        acts@,
                                    )[j] == addpeer_actions(pre, sa, adv)[j]);
                                    assert(action_views(acts@) =~= addpeer_actions(
                                        self.peers@.subrange(0, i + 1 as int),
                                        sa,
                                        adv,
                                    ));
                                } else {
                                    assert(adv_filter(pre.push(cur), adv) == adv_filter(pre, adv));
                                    assert(action_views(acts@) =~= addpeer_actions(
                                        self.peers@.subrange(0, i + 1 as int),
                                        sa,
                                        adv,
                                    ));
                                }
                            }
                            i = i + 1;
                        }
                        acts.push(Action::SendSnapshot(sa));
                        proof {
                            assert(self.peers@.subrange(0, self.peers@.len() as int) =~= self.peers@);
                            assert(action_views(acts@) =~= addpeer_actions(
                                self.peers@,
                                sa,
                                adv,
                            ).push(ActionV::SendSnapshot(sa)));
                        }
                        Ok(acts)
                    },
                }
            },
            (MsgBody::IpcClient(IpcClientMsg::ShutdownRequest), MsgSource::IpcClient(_)) => {
                let mut acts: Vec<Action> = Vec::new();
                acts.push(Action::Shutdown);
                proof {
                    assert(action_views(acts@) =~= seq![ActionV::Shutdown]);
                }
                Ok(acts)
            },
            (MsgBody::IpcClient(IpcClientMsg::InfoRequest), MsgSource::IpcClient(a)) => {
                let mut peer_infos: Vec<PeerInfo> = Vec::new();
                let mut i: usize = 0;
                while i < self.peers.len()
                    invariant
                        i <= self.peers@.len(),
                        peer_infos@ == peer_infos_of(self.peers@.subrange(0, i as int)),
                    decreases self.peers@.len() - i,
                {
                    peer_infos.push(self.peers[i].1);
                    proof {
                        assert(self.peers@.subrange(0, i + 1 as int) =~= self.peers@.subrange(
                            0,
                            i as int,
                        ).push(self.peers@[i as int]));
                        assert(peer_infos@ =~= peer_infos_of(self.peers@.subrange(0, i + 1 as int)));
                    }
                    i = i + 1;
                }
                proof {
                    assert(self.peers@.subrange(0, self.peers@.len() as int) =~= self.peers@);
                }
                let all = self.attached_clients.all();
                let mut client_infos: Vec<AttachedIpcClientInfo> = Vec::new();
                let mut i: usize = 0;
                while i < all.len()
                    invariant
                        i <= all@.len(),
                        crate::clients::client_views(all@) == self.attached_clients.all_seq(),
                        client_infos@.len() == i,
                        forall|j: int| 0 <= j < i ==> (#[trigger] client_infos@[j])@ == all@[j]@,
                    decreases all@.len() - i,
                {
                    client_infos.push(all[i].info.clone());
                    i = i + 1;
                }
                let info = IpcClientInfo {
                    addr: self.own_addr,
                    peers: peer_infos,
                    attached_clients: client_infos,
                };
                proof {
                    assert(info@.attached_clients =~= self.attached_clients.all_seq());
                }
                let mut acts: Vec<Action> = Vec::new();
                acts.push(Action::SendClient(a, IpcClientResponse::Info(info)));
                proof {
                    assert(action_views(acts@) =~= seq![
                        ActionV::SendClient(
                            a,
                            IpcClientResponseV::Info(
                                IpcClientInfoV {
                                    addr: self.own_addr,
                                    peers: peer_infos_of(self.peers@),
                                    attached_clients: self.attached_clients.all_seq(),
                                },
                            ),
                        ),
                    ]);
                }
                Ok(acts)
            },
            _ => {
                proof {
                    assert(action_views(Seq::<Action>::empty()) =~= Seq::<ActionV>::empty());
                }
                Ok(Vec::new())
            },
        }
    }

    /// Register a freshly loaded snapshot and stream it to a peer: every
    /// diff that registers successfully becomes a frame for that peer, in
    /// order.  This drives the startup handshake after a
    /// [`ActionV::SendSnapshot`] action.
    #[verifier::loop_isolation(false)]
    pub fn register_snapshot(&mut self, to: Addr, diffs: Vec<FsDiff>) -> (acts: Vec<Action>)
        requires
            old(self).wf(),
            forall|i: int| 0 <= i < diffs@.len() ==> (#[trigger] diffs@[i]).wf(),
        ensures
            final(self).wf(),
            final(self).register@ == snapshot_reg(old(self).register@, diff_views(diffs@)),
            final(self).peers@ == old(self).peers@,
            final(self).attached_clients == old(self).attached_clients,
            final(self).own_addr == old(self).own_addr,
            action_views(acts@) == snapshot_actions(
                snapshot_sent(old(self).register@, diff_views(diffs@)),
                to,
            ),
    {
        let mut acts: Vec<Action> = Vec::new();
        let mut i: usize = 0;
        proof {
            assert(diff_views(diffs@.subrange(0, 0)) =~= Seq::<FsDiffV>::empty());
            assert(action_views(acts@) =~= snapshot_actions(
                snapshot_sent(old(self).register@, diff_views(diffs@.subrange(0, 0))),
                to,
            ));
        }
        while i < diffs.len()
            invariant
                i <= diffs@.len(),
                forall|j: int| 0 <= j < diffs@.len() ==> (#[trigger] diffs@[j]).wf(),
                self.register.wf(),
                self.attached_clients == old(self).attached_clients,
                self.peers@ == old(self).peers@,
                self.own_addr == old(self).own_addr,
                self.attached_clients.wf(),
                forall|a: int, b: int|
                    0 <= a < b < self.peers@.len() ==> self.peers@[a].0 != self.peers@[b].0,
                self.register@ == snapshot_reg(
                    old(self).register@,
                    diff_views(diffs@.subrange(0, i as int)),
                ),
                action_views(acts@) == snapshot_actions(
                    snapshot_sent(old(self).register@, diff_views(diffs@.subrange(0, i as int))),
                    to,
                ),
            decreases diffs@.len() - i,
        {
            let diff = &diffs[i];
            let res = diff.register(&mut self.register);
            match res {
                Ok(()) => {
                    acts.push(Action::SendPeer(to, RemoteMsg::FsDiff(diff.clone())));
                },
                Err(_) => {},
            }
            proof {
                let pre = diff_views(diffs@.subrange(0, i as int));
                assert(diffs@.subrange(0, i + 1 as int) =~= diffs@.subrange(0, i as int).push(
                    diffs@[i as int],
                ));
                assert(diff_views(diffs@.subrange(0, i + 1 as int)) =~= pre.push(diffs@[i as int]@));
                lemma_snapshot_extend(old(self).register@, pre, diffs@[i as int]@);
                let sent_pre = snapshot_sent(old(self).register@, pre);
                let sent_now = snapshot_sent(
                    old(self).register@,
                    diff_views(diffs@.subrange(0, i + 1 as int)),
                );
                if spec_register_ok(diffs@[i as int]@, snapshot_reg(old(self).register@, pre)) {
                    assert(sent_now == sent_pre.push(diffs@[i as int]@));
                    assert(acts@[acts@.len() - 1]@ == ActionV::SendPeer(
                        to,
                        RemoteMsgV::FsDiff(diffs@[i as int]@),
                    ));
                    assert(forall|j: int| 0 <= j < acts@.len() - 1 ==> action_views(acts@)[j]
                        == snapshot_actions(sent_pre, to)[j]);
                    assert(action_views(acts@) =~= snapshot_actions(sent_now, to));
                } else {
                    assert(sent_now == sent_pre);
                    assert(action_views(acts@) =~= snapshot_actions(sent_now, to));
                }
            }
            i = i + 1;
        }
        proof {
            assert(diffs@.subrange(0, diffs@.len() as int) =~= diffs@);
        }
        acts
    }

    /// Register the initial scan's diffs directly, so that the first
    /// observation of the tree does not look like a remote change; the
    /// watcher's echoes of these entries are then dropped by `step`.
    pub fn register_initial(&mut self, diffs: &Vec<FsDiff>)
        requires
            old(self).wf(),
            forall|i: int| 0 <= i < diffs@.len() ==> (#[trigger] diffs@[i]).wf(),
        ensures
            final(self).wf(),
            final(self).register@ == snapshot_reg(old(self).register@, diff_views(diffs@)),
            final(self).peers@ == old(self).peers@,
            final(self).attached_clients == old(self).attached_clients,
            final(self).own_addr == old(self).own_addr,
    {
        let mut i: usize = 0;
        proof {
            assert(diff_views(diffs@.subrange(0, 0)) =~= Seq::<FsDiffV>::empty());
        }
        while i < diffs.len()
            invariant
                i <= diffs@.len(),
                forall|j: int| 0 <= j < diffs@.len() ==> (#[trigger] diffs@[j]).wf(),
                self.register.wf(),
                self.attached_clients == old(self).attached_clients,
                self.peers@ == old(self).peers@,
                self.own_addr == old(self).own_addr,
                self.attached_clients.wf(),
                forall|a: int, b: int|
                    0 <= a < b < self.peers@.len() ==> self.peers@[a].0 != self.peers@[b].0,
                self.register@ == snapshot_reg(
                    old(self).register@,
                    diff_views(diffs@.subrange(0, i as int)),
                ),
            decreases diffs@.len() - i,
        {
            let diff = &diffs[i];
            let _ = diff.register(&mut self.register);
            proof {
                let pre = diff_views(diffs@.subrange(0, i as int));
                assert(diffs@.subrange(0, i + 1 as int) =~= diffs@.subrange(0, i as int).push(
                    diffs@[i as int],
                ));
                assert(diff_views(diffs@.subrange(0, i + 1 as int)) =~= pre.push(diffs@[i as int]@));
                lemma_snapshot_extend(old(self).register@, pre, diffs@[i as int]@);
            }
            i = i + 1;
        }
        proof {
            assert(diffs@.subrange(0, diffs@.len() as int) =~= diffs@);
        }
    }
}

proof fn lemma_peers_map_update(s: Seq<(Addr, PeerInfo)>, i: int, pair: (Addr, PeerInfo))
    requires
        forall|a: int, b: int| 0 <= a < b < s.len() ==> s[a].0 != s[b].0,
        0 <= i < s.len(),
        pair.0 == s[i].0,
    ensures
        peers_map_of(s.update(i, pair)) == peers_map_of(s).insert(s[i].0, pair.1),
    decreases s.len(),
{
    if i == s.len() - 1 {
        assert(s.update(i, pair).drop_last() =~= s.drop_last());
        assert(s.update(i, pair).last() == pair);
        assert(peers_map_of(s.update(i, pair)) =~= peers_map_of(s).insert(s[i].0, pair.1));
    } else {
        assert(forall|a: int, b: int| 0 <= a < b < s.drop_last().len() ==>
            s.drop_last()[a].0 != s.drop_last()[b].0);
        lemma_peers_map_update(s.drop_last(), i, pair);
        assert(s.update(i, pair).drop_last() =~= s.drop_last().update(i, pair));
        assert(s.update(i, pair).last() == s.last());
        assert(s[i].0 != s.last().0);
        assert(peers_map_of(s.update(i, pair)) =~= peers_map_of(s).insert(s[i].0, pair.1));
    }
}

proof fn lemma_peers_map_remove(s: Seq<(Addr, PeerInfo)>, i: int)
    requires
        forall|a: int, b: int| 0 <= a < b < s.len() ==> s[a].0 != s[b].0,
        0 <= i < s.len(),
    ensures
        peers_map_of(s.remove(i)) == peers_map_of(s).remove(s[i].0),
    decreases s.len(),
{
    if i == s.len() - 1 {
        assert(s.remove(i) =~= s.drop_last());
        lemma_peers_map_domain(s.drop_last(), s[i].0);
        assert(forall|j: int| 0 <= j < s.drop_last().len() ==>
            (#[trigger] s.drop_last()[j]).0 == s[j].0);
        assert(!peers_map_of(s.drop_last()).contains_key(s[i].0));
        assert(peers_map_of(s.remove(i)) =~= peers_map_of(s).remove(s[i].0));
    } else {
        assert(forall|a: int, b: int| 0 <= a < b < s.drop_last().len() ==>
            s.drop_last()[a].0 != s.drop_last()[b].0);
        lemma_peers_map_remove(s.drop_last(), i);
        assert(s.remove(i).drop_last() =~= s.drop_last().remove(i));
        assert(s.remove(i).last() == s.last());
        assert(s[i].0 != s.last().0);
        assert(peers_map_of(s.remove(i)) =~= peers_map_of(s).remove(s[i].0));
    }
}

} // verus!
