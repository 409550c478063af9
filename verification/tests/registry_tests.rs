use collab::hashing::hash_file;
use collab::paths::RelPath;
use collab::perms::FilePerm;
use collab::registry::{FsDiff, FsReg, Registry};

fn rp(s: &str) -> RelPath {
    RelPath::new(s.to_string()).unwrap()
}

#[test]
fn fnv1a_known_values() {
    // the FNV-1a 64-bit offset basis hashes the empty input to itself
    assert_eq!(hash_file(&Vec::new()), 0xcbf29ce484222325);
    // a single 'a' byte: well-known FNV-1a 64 value
    assert_eq!(hash_file(&vec![0x61]), 0xaf63dc4c8601ec8c);
    assert_ne!(hash_file(&vec![1, 2, 3]), hash_file(&vec![1, 2, 4]));
}

#[test]
fn relative_path_validation() {
    assert!(RelPath::new("a/b.txt".to_string()).is_ok());
    assert!(RelPath::new("".to_string()).is_ok());
    assert!(RelPath::new("/abs".to_string()).is_err());
    assert!(RelPath::new("a\\b".to_string()).is_err());
    // a drive-style prefix is a host-specific absolute form
    assert!(RelPath::new("c:/x".to_string()).is_err());
    assert!(RelPath::new("ab:c".to_string()).is_ok());
}

#[test]
fn write_registers_file_and_keeps_perm() {
    let mut reg = Registry::new();
    let d = FsDiff::Write(rp("f"), vec![1, 2]);
    assert!(d.changes_register(&reg));
    d.register(&mut reg).unwrap();
    assert!(!d.changes_register(&reg));
    // set a permission, then rewrite the same path: the permission stays
    let perm = FilePerm { readonly: false, executable: true };
    FsDiff::Chmod(rp("f"), perm).register(&mut reg).unwrap();
    FsDiff::Write(rp("f"), vec![9, 9]).register(&mut reg).unwrap();
    match reg.get(&rp("f")) {
        Some(FsReg::File(h, p)) => {
            assert_eq!(*h, hash_file(&vec![9, 9]));
            assert_eq!(*p, Some(perm));
        },
        other => panic!("unexpected entry: {:?}", other),
    }
}

#[test]
fn del_missing_is_error() {
    let mut reg = Registry::new();
    assert!(!FsDiff::Del(rp("gone")).changes_register(&reg));
    assert!(FsDiff::Del(rp("gone")).register(&mut reg).is_err());
}

#[test]
fn chmod_on_dir_is_error() {
    let mut reg = Registry::new();
    FsDiff::NewDir(rp("d")).register(&mut reg).unwrap();
    let perm = FilePerm { readonly: false, executable: false };
    assert!(!FsDiff::Chmod(rp("d"), perm).changes_register(&reg));
    assert!(FsDiff::Chmod(rp("d"), perm).register(&mut reg).is_err());
}

#[test]
fn move_of_absent_source_is_noop() {
    let mut reg = Registry::new();
    let d = FsDiff::Move(rp("a"), rp("b"));
    assert!(!d.changes_register(&reg));
    assert!(d.register(&mut reg).is_ok());
    assert!(reg.get(&rp("a")).is_none());
    assert!(reg.get(&rp("b")).is_none());
}

#[test]
fn move_transfers_entry() {
    let mut reg = Registry::new();
    FsDiff::Write(rp("a"), vec![5]).register(&mut reg).unwrap();
    let d = FsDiff::Move(rp("a"), rp("b"));
    assert!(d.changes_register(&reg));
    d.register(&mut reg).unwrap();
    assert!(reg.get(&rp("a")).is_none());
    match reg.get(&rp("b")) {
        Some(FsReg::File(h, _)) => assert_eq!(*h, hash_file(&vec![5])),
        other => panic!("unexpected entry: {:?}", other),
    }
}

#[test]
fn idempotent_diff_concrete() {
    // a diff whose changes_register is false leaves the registry unchanged
    let mut reg = Registry::new();
    FsDiff::Write(rp("f"), vec![7]).register(&mut reg).unwrap();
    let same = FsDiff::Write(rp("f"), vec![7]);
    assert!(!same.changes_register(&reg));
    same.register(&mut reg).unwrap();
    match reg.get(&rp("f")) {
        Some(FsReg::File(h, p)) => {
            assert_eq!(*h, hash_file(&vec![7]));
            assert_eq!(*p, None);
        },
        other => panic!("unexpected entry: {:?}", other),
    }
}

#[test]
fn echo_suppression_concrete() {
    // after registering a changing diff, the identical diff changes nothing
    let mut reg = Registry::new();
    let cases = vec![
        FsDiff::Write(rp("f"), vec![1]),
        FsDiff::NewDir(rp("d")),
        FsDiff::Chmod(rp("f"), FilePerm { readonly: true, executable: false }),
    ];
    for d in &cases {
        if d.changes_register(&reg) {
            d.register(&mut reg).unwrap();
            assert!(!d.changes_register(&reg), "echo not suppressed: {:?}", d);
        }
    }
    // deletion: once deleted, the same Del is dropped
    let del = FsDiff::Del(rp("f"));
    assert!(del.changes_register(&reg));
    del.register(&mut reg).unwrap();
    assert!(!del.changes_register(&reg));
}
