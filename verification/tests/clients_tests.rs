use collab::addr::Addr;
use collab::clients::{AttachedClients, AttachedIpcClient, AttachedIpcClientInfo};
use collab::paths::RelPath;

fn rp(s: &str) -> RelPath {
    RelPath::new(s.to_string()).unwrap()
}

fn client(path: &str, port: u16, desc: &str) -> AttachedIpcClient {
    AttachedIpcClient {
        info: AttachedIpcClientInfo {
            path: rp(path),
            addr: Addr::loopback(port),
            desc: desc.to_string(),
        },
    }
}

#[test]
fn add_and_lookup() {
    let mut t = AttachedClients::new();
    t.add(client("file", 1000, "ed1"));
    t.add(client("file", 1001, "ed2"));
    t.add(client("other", 1002, "ed3"));
    let c = t.get_addr(Addr::loopback(1001)).unwrap();
    assert_eq!(c.info.desc, "ed2");
    assert_eq!(c.info.path.as_str(), "file");
    assert!(t.get_addr(Addr::loopback(9999)).is_none());
    let bucket = t.get_path(&rp("file"));
    assert_eq!(bucket.len(), 2);
    assert_eq!(t.get_path(&rp("missing")).len(), 0);
    assert_eq!(t.all().len(), 3);
}

#[test]
fn dual_index_consistent_after_updates() {
    // every client found by address sits in the bucket for its path, and
    // every bucket member is found by its address with the same record
    let mut t = AttachedClients::new();
    t.add(client("a", 1, "a1"));
    t.add(client("a", 2, "a2"));
    t.add(client("b", 3, "b1"));
    t.remove(&client("a", 1, "a1"));
    t.add(client("b", 4, "b2"));
    let all = t.all();
    assert_eq!(all.len(), 3);
    for c in &all {
        let bucket = t.get_path(&c.info.path);
        assert!(bucket.iter().any(|m| m.info == c.info), "missing from bucket: {:?}", c);
        for m in &bucket {
            let by_addr = t.get_addr(m.info.addr).expect("bucket member not indexed");
            assert_eq!(by_addr.info, m.info);
        }
    }
}

#[test]
fn remove_keeps_other_client_on_same_path() {
    let mut t = AttachedClients::new();
    t.add(client("shared", 10, "one"));
    t.add(client("shared", 11, "two"));
    t.remove(&client("shared", 10, "one"));
    let bucket = t.get_path(&rp("shared"));
    assert_eq!(bucket.len(), 1);
    assert_eq!(bucket[0].info.desc, "two");
    assert!(t.get_addr(Addr::loopback(10)).is_none());
    assert!(t.get_addr(Addr::loopback(11)).is_some());
}

#[test]
fn remove_absent_is_noop() {
    let mut t = AttachedClients::new();
    t.add(client("p", 7, "x"));
    t.remove(&client("q", 8, "y"));
    assert_eq!(t.all().len(), 1);
}

#[test]
fn remove_last_drops_bucket() {
    let mut t = AttachedClients::new();
    t.add(client("p", 7, "x"));
    t.remove(&client("p", 7, "x"));
    assert_eq!(t.get_path(&rp("p")).len(), 0);
    assert_eq!(t.all().len(), 0);
}
