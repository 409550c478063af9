use collab::addr::Addr;
use collab::messages::{BufferDiff, IpcClientMsg, IpcClientResponse, Msg, MsgBody, MsgSource,
    RemoteMsg};
use collab::paths::RelPath;
use collab::registry::FsDiff;
use collab::router::{Action, RouterState};

fn rp(s: &str) -> RelPath {
    RelPath::new(s.to_string()).unwrap()
}

fn bd(pos: u32, old_len: u32, s: &str) -> BufferDiff {
    BufferDiff { pos, old_len, new_str: s.to_string() }
}

fn own() -> Addr {
    Addr::loopback(4000)
}

fn attach(r: &mut RouterState, port: u16, path: &str) {
    let acts = r
        .step(Msg {
            body: MsgBody::IpcClient(IpcClientMsg::AttachRequest {
                path: rp(path),
                desc: "ed".to_string(),
            }),
            source: MsgSource::IpcClient(Addr::loopback(port)),
        })
        .unwrap();
    assert!(acts.is_empty());
}

#[test]
fn fs_diff_from_watcher_fans_out_to_peers() {
    let mut r = RouterState::new(own());
    r.peer_connected(Addr::loopback(5001));
    r.peer_connected(Addr::loopback(5002));
    let acts = r
        .step(Msg {
            body: MsgBody::Remote(RemoteMsg::FsDiff(FsDiff::Write(rp("f"), vec![1]))),
            source: MsgSource::Inotify,
        })
        .unwrap();
    assert_eq!(acts.len(), 2);
    for a in &acts {
        match a {
            Action::SendPeer(_, RemoteMsg::FsDiff(FsDiff::Write(p, data))) => {
                assert_eq!(p.as_str(), "f");
                assert_eq!(data, &vec![1]);
            },
            other => panic!("unexpected action: {:?}", other),
        }
    }
}

#[test]
fn fs_diff_from_peer_is_applied_and_echo_dropped() {
    let mut r = RouterState::new(own());
    r.peer_connected(Addr::loopback(5001));
    let diff = FsDiff::Write(rp("f"), vec![1, 2, 3]);
    let acts = r
        .step(Msg {
            body: MsgBody::Remote(RemoteMsg::FsDiff(diff)),
            source: MsgSource::Peer(Addr::loopback(5001)),
        })
        .unwrap();
    assert_eq!(acts.len(), 1);
    assert!(matches!(acts[0], Action::ApplyDiff(_)));
    // the watcher re-observes the applied write: the echo is dropped and,
    // decisively, nothing is sent back to any peer
    let echo = FsDiff::Write(rp("f"), vec![1, 2, 3]);
    let acts = r
        .step(Msg { body: MsgBody::Remote(RemoteMsg::FsDiff(echo)), source: MsgSource::Inotify })
        .unwrap();
    assert!(acts.is_empty());
}

#[test]
fn buffer_diff_fans_out_to_other_clients_and_peers() {
    let mut r = RouterState::new(own());
    r.peer_connected(Addr::loopback(5001));
    attach(&mut r, 6001, "file");
    attach(&mut r, 6002, "file");
    attach(&mut r, 6003, "elsewhere");
    let acts = r
        .step(Msg {
            body: MsgBody::IpcClient(IpcClientMsg::BufferDiff(bd(0, 0, "x"))),
            source: MsgSource::IpcClient(Addr::loopback(6001)),
        })
        .unwrap();
    // one client fan-out (6002 only: not the sender, not the other file),
    // then one peer fan-out
    assert_eq!(acts.len(), 2);
    match &acts[0] {
        Action::SendClient(a, IpcClientResponse::BufferDiff(d)) => {
            assert_eq!(*a, Addr::loopback(6002));
            assert_eq!(d.new_str, "x");
        },
        other => panic!("unexpected action: {:?}", other),
    }
    match &acts[1] {
        Action::SendPeer(a, RemoteMsg::BufferDiff(p, d)) => {
            assert_eq!(*a, Addr::loopback(5001));
            assert_eq!(p.as_str(), "file");
            assert_eq!(d.pos, 0);
        },
        other => panic!("unexpected action: {:?}", other),
    }
}

#[test]
fn buffer_diff_from_unattached_address_is_error() {
    let mut r = RouterState::new(own());
    let res = r.step(Msg {
        body: MsgBody::IpcClient(IpcClientMsg::BufferDiff(bd(0, 0, "x"))),
        source: MsgSource::IpcClient(Addr::loopback(6009)),
    });
    assert!(res.is_err());
}

#[test]
fn peer_buffer_diff_reaches_clients_but_no_peer() {
    let mut r = RouterState::new(own());
    r.peer_connected(Addr::loopback(5001));
    r.peer_connected(Addr::loopback(5002));
    attach(&mut r, 6001, "file");
    let acts = r
        .step(Msg {
            body: MsgBody::Remote(RemoteMsg::BufferDiff(rp("file"), bd(1, 2, "y"))),
            source: MsgSource::Peer(Addr::loopback(5001)),
        })
        .unwrap();
    // every attached client hears it; no rebroadcast to peers
    assert_eq!(acts.len(), 1);
    assert!(matches!(&acts[0], Action::SendClient(_, IpcClientResponse::BufferDiff(_))));
}

#[test]
fn add_peer_is_dialled() {
    let mut r = RouterState::new(own());
    let acts = r
        .step(Msg {
            body: MsgBody::Remote(RemoteMsg::AddPeer(Addr::loopback(7000))),
            source: MsgSource::Peer(Addr::loopback(5001)),
        })
        .unwrap();
    assert_eq!(acts.len(), 1);
    assert!(matches!(acts[0], Action::ConnectPeer(a) if a == Addr::loopback(7000)));
}

#[test]
fn startup_shares_peer_list_and_streams_snapshot() {
    let mut r = RouterState::new(own());
    r.peer_connected(Addr::loopback(5001));
    r.peer_connected(Addr::loopback(5002));
    let acts = r
        .step(Msg {
            body: MsgBody::Remote(RemoteMsg::Startup(Addr::new(127, 0, 0, 1, 8000))),
            source: MsgSource::Peer(Addr::loopback(5002)),
        })
        .unwrap();
    // the other peer's advertised address is shared, then the snapshot starts
    assert_eq!(acts.len(), 2);
    assert!(matches!(&acts[0],
        Action::SendPeer(to, RemoteMsg::AddPeer(a))
            if *to == Addr::loopback(5002) && *a == Addr::loopback(5001)));
    assert!(matches!(&acts[1], Action::SendSnapshot(a) if *a == Addr::loopback(5002)));
    // the snapshot registers the loaded diffs and frames each for the peer
    let diffs = vec![FsDiff::NewDir(rp("d")), FsDiff::Write(rp("d/f"), vec![1])];
    let acts = r.register_snapshot(Addr::loopback(5002), diffs);
    assert_eq!(acts.len(), 2);
    assert!(matches!(&acts[0], Action::SendPeer(_, RemoteMsg::FsDiff(FsDiff::NewDir(_)))));
    // the registry now knows both entries: their echoes are dropped
    let acts = r
        .step(Msg {
            body: MsgBody::Remote(RemoteMsg::FsDiff(FsDiff::Write(rp("d/f"), vec![1]))),
            source: MsgSource::Inotify,
        })
        .unwrap();
    assert!(acts.is_empty());
}

#[test]
fn startup_from_unknown_peer_is_error() {
    let mut r = RouterState::new(own());
    let res = r.step(Msg {
        body: MsgBody::Remote(RemoteMsg::Startup(Addr::loopback(8000))),
        source: MsgSource::Peer(Addr::loopback(5009)),
    });
    assert!(res.is_err());
}

#[test]
fn shutdown_and_info() {
    let mut r = RouterState::new(own());
    r.peer_connected(Addr::loopback(5001));
    attach(&mut r, 6001, "file");
    let acts = r
        .step(Msg {
            body: MsgBody::IpcClient(IpcClientMsg::InfoRequest),
            source: MsgSource::IpcClient(Addr::loopback(6001)),
        })
        .unwrap();
    assert_eq!(acts.len(), 1);
    match &acts[0] {
        Action::SendClient(a, IpcClientResponse::Info(info)) => {
            assert_eq!(*a, Addr::loopback(6001));
            assert_eq!(info.addr, own());
            assert_eq!(info.peers.len(), 1);
            assert_eq!(info.attached_clients.len(), 1);
        },
        other => panic!("unexpected action: {:?}", other),
    }
    let acts = r
        .step(Msg {
            body: MsgBody::IpcClient(IpcClientMsg::ShutdownRequest),
            source: MsgSource::IpcClient(Addr::loopback(6001)),
        })
        .unwrap();
    assert_eq!(acts.len(), 1);
    assert!(matches!(acts[0], Action::Shutdown));
}

#[test]
fn local_disconnect_detaches() {
    let mut r = RouterState::new(own());
    attach(&mut r, 6001, "file");
    let acts = r
        .step(Msg {
            body: MsgBody::IpcClient(IpcClientMsg::LocalDisconnect),
            source: MsgSource::IpcClient(Addr::loopback(6001)),
        })
        .unwrap();
    assert!(acts.is_empty());
    // further edits from that address now fail
    let res = r.step(Msg {
        body: MsgBody::IpcClient(IpcClientMsg::BufferDiff(bd(0, 0, "x"))),
        source: MsgSource::IpcClient(Addr::loopback(6001)),
    });
    assert!(res.is_err());
}

/// Drive two model daemons through the snapshot handshake and a later
/// watcher event, checking that registries converge and echoes die out.
#[test]
fn two_routers_converge() {
    let mut r1 = RouterState::new(Addr::loopback(4001));
    let mut r2 = RouterState::new(Addr::loopback(4002));
    // r1 already has content, registered by its initial scan
    let tree = vec![
        FsDiff::NewDir(rp("dir")),
        FsDiff::Write(rp("dir/file"), b"more text\nand another line".to_vec()),
        FsDiff::Write(rp("foobar"), b"x".to_vec()),
    ];
    r1.register_initial(&tree);
    // r2 connects to r1 and announces itself
    r1.peer_connected(Addr::loopback(4102));
    r2.peer_connected(Addr::loopback(4101));
    let acts = r1
        .step(Msg {
            body: MsgBody::Remote(RemoteMsg::Startup(Addr::loopback(4002))),
            source: MsgSource::Peer(Addr::loopback(4102)),
        })
        .unwrap();
    assert!(matches!(acts.last().unwrap(), Action::SendSnapshot(_)));
    // r1 loads its disk again (the same tree) and streams it
    let frames = r1.register_snapshot(
        Addr::loopback(4102),
        vec![
            FsDiff::NewDir(rp("dir")),
            FsDiff::Write(rp("dir/file"), b"more text\nand another line".to_vec()),
            FsDiff::Write(rp("foobar"), b"x".to_vec()),
        ],
    );
    // r2 receives each frame as a peer message and applies everything
    let mut applied = 0;
    for f in frames {
        if let Action::SendPeer(_, msg) = f {
            let acts = r2
                .step(Msg { body: MsgBody::Remote(msg), source: MsgSource::Peer(Addr::loopback(4101)) })
                .unwrap();
            for a in acts {
                if let Action::ApplyDiff(_) = a {
                    applied += 1;
                }
            }
        }
    }
    assert_eq!(applied, 3);
    // r2's watcher re-observes the applied files: all echoes are dropped
    for echo in vec![
        FsDiff::NewDir(rp("dir")),
        FsDiff::Write(rp("dir/file"), b"more text\nand another line".to_vec()),
        FsDiff::Write(rp("foobar"), b"x".to_vec()),
    ] {
        let acts = r2
            .step(Msg { body: MsgBody::Remote(RemoteMsg::FsDiff(echo)), source: MsgSource::Inotify })
            .unwrap();
        assert!(acts.is_empty());
    }
    // edits flow the other way too: a file written on r2 reaches r1, whose
    // own echo then dies out — both registries hold both files
    let acts = r2
        .step(Msg {
            body: MsgBody::Remote(RemoteMsg::FsDiff(FsDiff::Write(rp("y"), b"y".to_vec()))),
            source: MsgSource::Inotify,
        })
        .unwrap();
    let mut applied_on_r1 = 0;
    for a in acts {
        if let Action::SendPeer(_, msg) = a {
            let acts = r1
                .step(Msg { body: MsgBody::Remote(msg), source: MsgSource::Peer(Addr::loopback(4102)) })
                .unwrap();
            for b in acts {
                if let Action::ApplyDiff(_) = b {
                    applied_on_r1 += 1;
                }
            }
        }
    }
    assert_eq!(applied_on_r1, 1);
    let acts = r1
        .step(Msg {
            body: MsgBody::Remote(RemoteMsg::FsDiff(FsDiff::Write(rp("y"), b"y".to_vec()))),
            source: MsgSource::Inotify,
        })
        .unwrap();
    assert!(acts.is_empty());
}
