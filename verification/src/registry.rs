//! The content-addressed file registry and the filesystem diffs that drive it.
//!
//! The registry records, for every tracked relative path, the daemon's
//! last-observed state: a directory, or a file identified by the hash of its
//! bytes together with its replicated permissions.  The router consults it
//! through [`FsDiff::changes_register`] to decide whether an incoming diff
//! carries news, and updates it through [`FsDiff::register`].  That check is
//! the sole mechanism that breaks replication loops: a diff echoed back by
//! the local watcher after a peer's change was applied to disk hashes to the
//! same entry and is dropped.

use vstd::prelude::*;

use crate::errors::CollabError;
use crate::hashing::{fnv1a, hash_file};
use crate::paths::{is_rel_path, RelPath};
use crate::perms::FilePerm;

verus! {

/// One registry entry: a directory, or a file's content hash and permissions.
#[derive(Debug, PartialEq, Eq, Clone, Copy)]
pub enum FsReg {
    File(u64, Option<FilePerm>),
    Dir,
}

/// Equality of registry entries, usable under contracts.
pub fn fs_reg_same(a: &FsReg, b: &FsReg) -> (r: bool)
    ensures
        r == (a == b),
{
    match (a, b) {
        (FsReg::Dir, FsReg::Dir) => true,
        (FsReg::File(h1, p1), FsReg::File(h2, p2)) => {
            h1 == h2 && match (p1, p2) {
                (Some(q1), Some(q2)) => q1 == q2,
                (None, None) => true,
                _ => false,
            }
        },
        _ => false,
    }
}

/// A single filesystem mutation event.
#[derive(Debug, PartialEq, Eq)]
pub enum FsDiff {
    Write(RelPath, Vec<u8>),
    NewDir(RelPath),
    Del(RelPath),
    Move(RelPath, RelPath),
    Chmod(RelPath, FilePerm),
}

/// The mathematical value of an [`FsDiff`].
pub enum FsDiffV {
    Write(Seq<char>, Seq<u8>),
    NewDir(Seq<char>),
    Del(Seq<char>),
    Move(Seq<char>, Seq<char>),
    Chmod(Seq<char>, FilePerm),
}

impl View for FsDiff {
    type V = FsDiffV;

    open spec fn view(&self) -> FsDiffV {
        match self {
            FsDiff::Write(p, b) => FsDiffV::Write(p@, b@),
            FsDiff::NewDir(p) => FsDiffV::NewDir(p@),
            FsDiff::Del(p) => FsDiffV::Del(p@),
            FsDiff::Move(f, t) => FsDiffV::Move(f@, t@),
            FsDiff::Chmod(p, q) => FsDiffV::Chmod(p@, *q),
        }
    }
}

impl Clone for FsDiff {
    fn clone(&self) -> (r: Self)
        ensures
            r@ == self@,
    {
        match self {
            FsDiff::Write(p, b) => FsDiff::Write(p.clone(), clone_bytes(b)),
            FsDiff::NewDir(p) => FsDiff::NewDir(p.clone()),
            FsDiff::Del(p) => FsDiff::Del(p.clone()),
            FsDiff::Move(f, t) => FsDiff::Move(f.clone(), t.clone()),
            FsDiff::Chmod(p, q) => FsDiff::Chmod(p.clone(), *q),
        }
    }
}

/// Clone a byte vector, keeping its contents.
fn clone_bytes(b: &Vec<u8>) -> (r: Vec<u8>)
    ensures
        r@ == b@,
{
    let mut out: Vec<u8> = Vec::new();
    let mut i: usize = 0;
    while i < b.len()
        invariant
            i <= b@.len(),
            out@ == b@.subrange(0, i as int),
        decreases b@.len() - i,
    {
        out.push(b[i]);
        proof {
            assert(out@ =~= b@.subrange(0, i + 1 as int));
        }
        i = i + 1;
    }
    proof {
        assert(out@ =~= b@);
    }
    out
}

/// All paths named by a diff are valid relative paths.
pub open spec fn diff_paths_wf(d: FsDiffV) -> bool {
    match d {
        FsDiffV::Write(p, _) => is_rel_path(p),
        FsDiffV::NewDir(p) => is_rel_path(p),
        FsDiffV::Del(p) => is_rel_path(p),
        FsDiffV::Move(f, t) => is_rel_path(f) && is_rel_path(t),
        FsDiffV::Chmod(p, _) => is_rel_path(p),
    }
}

impl FsDiff {
    /// All paths named by this diff are valid relative paths.
    pub open spec fn wf(&self) -> bool {
        diff_paths_wf(self@)
    }
}

/// The map a sequence of keyed entries denotes; later entries win.
pub open spec fn entries_map(s: Seq<(RelPath, FsReg)>) -> Map<Seq<char>, FsReg>
    decreases s.len(),
{
    if s.len() == 0 {
        Map::empty()
    } else {
        entries_map(s.drop_last()).insert(s.last().0@, s.last().1)
    }
}

/// The in-memory file registry: a mapping from relative path to [`FsReg`].
#[derive(Debug)]
pub struct Registry {
    entries: Vec<(RelPath, FsReg)>,
}

impl View for Registry {
    type V = Map<Seq<char>, FsReg>;

    closed spec fn view(&self) -> Map<Seq<char>, FsReg> {
        entries_map(self.entries@)
    }
}

/// Keys are pairwise distinct and every key is a valid relative path.
spec fn entries_wf(s: Seq<(RelPath, FsReg)>) -> bool {
    &&& forall|i: int, j: int| 0 <= i < j < s.len() ==> s[i].0@ != s[j].0@
    &&& forall|i: int| 0 <= i < s.len() ==> is_rel_path(#[trigger] s[i].0@)
}

proof fn lemma_entries_map_domain(s: Seq<(RelPath, FsReg)>, k: Seq<char>)
    ensures
        entries_map(s).contains_key(k) <==> exists|i: int| 0 <= i < s.len() && #[trigger] s[i].0@ == k,
    decreases s.len(),
{
    if s.len() > 0 {
        lemma_entries_map_domain(s.drop_last(), k);
        if s.last().0@ == k {
            assert(s[s.len() - 1].0@ == k);
        } else {
            if entries_map(s).contains_key(k) {
                let i = choose|i: int| 0 <= i < s.drop_last().len() && #[trigger] s.drop_last()[i].0@ == k;
                assert(s[i].0@ == k);
            }
            if exists|i: int| 0 <= i < s.len() && #[trigger] s[i].0@ == k {
                let i = choose|i: int| 0 <= i < s.len() && #[trigger] s[i].0@ == k;
                assert(s.drop_last()[i].0@ == k);
            }
        }
    }
}

proof fn lemma_entries_map_at(s: Seq<(RelPath, FsReg)>, i: int)
    requires
        entries_wf(s),
        0 <= i < s.len(),
    ensures
        entries_map(s).contains_key(s[i].0@),
        entries_map(s)[s[i].0@] == s[i].1,
    decreases s.len(),
{
    if i == s.len() - 1 {
        assert(entries_map(s) == entries_map(s.drop_last()).insert(s.last().0@, s.last().1));
    } else {
        assert(entries_wf(s.drop_last())) by {
            assert(forall|a: int, b: int| 0 <= a < b < s.drop_last().len() ==>
                s.drop_last()[a].0@ == s[a].0@ && s.drop_last()[b].0@ == s[b].0@);
        }
        lemma_entries_map_at(s.drop_last(), i);
        assert(s.drop_last()[i] == s[i]);
        assert(s[i].0@ != s.last().0@);
    }
}

proof fn lemma_entries_map_remove(s: Seq<(RelPath, FsReg)>, i: int)
    requires
        entries_wf(s),
        0 <= i < s.len(),
    ensures
        entries_map(s.remove(i)) == entries_map(s).remove(s[i].0@),
    decreases s.len(),
{
    if i == s.len() - 1 {
        assert(s.remove(i) =~= s.drop_last());
        lemma_entries_map_domain(s.drop_last(), s[i].0@);
        assert(forall|j: int| 0 <= j < s.drop_last().len() ==> #[trigger] s.drop_last()[j].0@ == s[j].0@);
        assert(!entries_map(s.drop_last()).contains_key(s[i].0@));
        assert(entries_map(s.drop_last()).remove(s[i].0@) =~= entries_map(s.drop_last()));
        assert(entries_map(s).remove(s[i].0@) =~=
            entries_map(s.drop_last()).insert(s.last().0@, s.last().1).remove(s[i].0@));
        assert(entries_map(s).remove(s[i].0@) =~= entries_map(s.drop_last()));
    } else {
        assert(entries_wf(s.drop_last())) by {
            assert(forall|a: int, b: int| 0 <= a < b < s.drop_last().len() ==>
                s.drop_last()[a].0@ == s[a].0@ && s.drop_last()[b].0@ == s[b].0@);
        }
        lemma_entries_map_remove(s.drop_last(), i);
        assert(s.remove(i).drop_last() =~= s.drop_last().remove(i));
        assert(s.remove(i).last() == s.last());
        assert(entries_map(s.remove(i)) ==
            entries_map(s.drop_last().remove(i)).insert(s.last().0@, s.last().1));
        assert(s[i].0@ != s.last().0@);
        assert(entries_map(s.remove(i)) =~= entries_map(s).remove(s[i].0@));
    }
}

impl Registry {
    /// The registry's internal invariant.
    pub closed spec fn wf(&self) -> bool {
        entries_wf(self.entries@)
    }

    /// Every key of a well-formed registry is a valid relative path.
    pub proof fn lemma_keys_rel(&self)
        requires
            self.wf(),
        ensures
            forall|k: Seq<char>| self@.contains_key(k) ==> is_rel_path(k),
    {
        assert forall|k: Seq<char>| self@.contains_key(k) implies is_rel_path(k) by {
            lemma_entries_map_domain(self.entries@, k);
            let i = choose|i: int| 0 <= i < self.entries@.len() && #[trigger] self.entries@[i].0@ == k;
            assert(is_rel_path(self.entries@[i].0@));
        }
    }

    /// An empty registry.
    pub fn new() -> (r: Registry)
        ensures
            r.wf(),
            r@ == Map::<Seq<char>, FsReg>::empty(),
    {
        Registry { entries: Vec::new() }
    }

    /// Find the index of a key, if present.
    fn find(&self, p: &RelPath) -> (r: Option<usize>)
        ensures
            match r {
                Some(i) => i < self.entries@.len() && self.entries@[i as int].0@ == p@,
                None => forall|i: int| 0 <= i < self.entries@.len() ==> #[trigger] self.entries@[i].0@ != p@,
            },
    {
        let mut i: usize = 0;
        while i < self.entries.len()
            invariant
                i <= self.entries@.len(),
                forall|j: int| 0 <= j < i ==> #[trigger] self.entries@[j].0@ != p@,
            decreases self.entries@.len() - i,
        {
            if self.entries[i].0.same(p) {
                return Some(i);
            }
            i = i + 1;
        }
        None
    }

    /// Look up the entry for a path.
    pub fn get(&self, p: &RelPath) -> (r: Option<&FsReg>)
        requires
            self.wf(),
        ensures
            match r {
                Some(v) => self@.contains_key(p@) && *v == self@[p@],
                None => !self@.contains_key(p@),
            },
    {
        match self.find(p) {
            Some(i) => {
                proof {
                    lemma_entries_map_at(self.entries@, i as int);
                }
                Some(&self.entries[i].1)
            },
            None => {
                proof {
                    lemma_entries_map_domain(self.entries@, p@);
                }
                None
            },
        }
    }

    /// Remove the entry for a path, returning it if it was present.
    pub fn remove(&mut self, p: &RelPath) -> (r: Option<FsReg>)
        requires
            old(self).wf(),
        ensures
            final(self).wf(),
            final(self)@ == old(self)@.remove(p@),
            match r {
                Some(v) => old(self)@.contains_key(p@) && v == old(self)@[p@],
                None => !old(self)@.contains_key(p@),
            },
    {
        match self.find(p) {
            Some(i) => {
                proof {
                    lemma_entries_map_at(self.entries@, i as int);
                    lemma_entries_map_remove(self.entries@, i as int);
                    let s = self.entries@;
                    assert(forall|a: int, b: int| 0 <= a < b < s.remove(i as int).len() ==>
                        s.remove(i as int)[a].0@ != s.remove(i as int)[b].0@) by {
                        assert(forall|a: int| 0 <= a < s.remove(i as int).len() ==>
                            #[trigger] s.remove(i as int)[a] == (if a < i { s[a] } else { s[a + 1] }));
                    }
                    assert(forall|a: int| 0 <= a < s.remove(i as int).len() ==>
                        is_rel_path(#[trigger] s.remove(i as int)[a].0@)) by {
                        assert(forall|a: int| 0 <= a < s.remove(i as int).len() ==>
                            #[trigger] s.remove(i as int)[a] == (if a < i { s[a] } else { s[a + 1] }));
                    }
                }
                let (_, v) = self.entries.remove(i);
                Some(v)
            },
            None => {
                proof {
                    lemma_entries_map_domain(self.entries@, p@);
                    assert(self@.remove(p@) =~= self@);
                }
                None
            },
        }
    }

    /// Insert or replace the entry for a path.
    pub fn insert(&mut self, p: RelPath, v: FsReg)
        requires
            old(self).wf(),
            p.wf(),
        ensures
            final(self).wf(),
            final(self)@ == old(self)@.insert(p@, v),
    {
        let prior = self.remove(&p);
        proof {
            let s = self.entries@;
            lemma_entries_map_domain(s, p@);
            assert(forall|i: int| 0 <= i < s.len() ==> #[trigger] s[i].0@ != p@);
            assert(s.push((p, v)).drop_last() =~= s);
            assert(forall|i: int| 0 <= i < s.len() ==> #[trigger] s.push((p, v))[i] == s[i]);
        }
        self.entries.push((p, v));
        proof {
            assert(self@ =~= old(self)@.insert(self.entries@.last().0@, v));
        }
    }
}

/// Whether applying `d` would alter the registry map `m`.
pub open spec fn spec_changes_register(d: FsDiffV, m: Map<Seq<char>, FsReg>) -> bool {
    match d {
        FsDiffV::Write(p, data) => {
            if m.contains_key(p) {
                match m[p] {
                    FsReg::File(h, _) => h != fnv1a(data),
                    FsReg::Dir => false,
                }
            } else {
                true
            }
        },
        FsDiffV::NewDir(p) => !(m.contains_key(p) && m[p] is Dir),
        FsDiffV::Del(p) => m.contains_key(p),
        FsDiffV::Move(f, t) => {
            m.contains_key(f) && (!m.contains_key(t) || m[f] != m[t])
        },
        FsDiffV::Chmod(p, q) => {
            m.contains_key(p) && match m[p] {
                FsReg::File(_, old_q) => old_q != Some(q),
                FsReg::Dir => false,
            }
        },
    }
}

/// Whether registering `d` against `m` succeeds.
pub open spec fn spec_register_ok(d: FsDiffV, m: Map<Seq<char>, FsReg>) -> bool {
    match d {
        FsDiffV::Write(_, _) => true,
        FsDiffV::NewDir(_) => true,
        FsDiffV::Del(p) => m.contains_key(p),
        FsDiffV::Move(_, _) => true,
        FsDiffV::Chmod(p, _) => m.contains_key(p) && m[p] is File,
    }
}

/// The registry map after registering `d` against `m`.  A failed
/// registration leaves the map unchanged.
pub open spec fn spec_register(d: FsDiffV, m: Map<Seq<char>, FsReg>) -> Map<Seq<char>, FsReg> {
    match d {
        FsDiffV::Write(p, data) => {
            let prior = if m.contains_key(p) && m[p] matches FsReg::File(_, Some(q)) {
                Some(m[p]->File_1->0)
            } else {
                None
            };
            m.insert(p, FsReg::File(fnv1a(data), prior))
        },
        FsDiffV::NewDir(p) => m.insert(p, FsReg::Dir),
        FsDiffV::Del(p) => if m.contains_key(p) {
            m.remove(p)
        } else {
            m
        },
        FsDiffV::Move(f, t) => if m.contains_key(f) {
            m.remove(f).insert(t, m[f])
        } else {
            m
        },
        FsDiffV::Chmod(p, q) => if m.contains_key(p) && m[p] is File {
            m.insert(p, FsReg::File(m[p]->File_0, Some(q)))
        } else {
            m
        },
    }
}

impl FsDiff {
    /// True iff applying this diff would update the file registry.
    pub fn changes_register(&self, reg: &Registry) -> (r: bool)
        requires
            reg.wf(),
        ensures
            r == spec_changes_register(self@, reg@),
    {
        match self {
            FsDiff::Write(p, data) => match reg.get(p) {
                Some(FsReg::File(h, _)) => *h != hash_file(data),
                Some(FsReg::Dir) => false,
                None => true,
            },
            FsDiff::NewDir(p) => match reg.get(p) {
                Some(FsReg::Dir) => false,
                _ => true,
            },
            FsDiff::Del(p) => reg.get(p).is_some(),
            FsDiff::Move(f, t) => {
                match reg.get(f) {
                    None => false,
                    Some(from_entry) => {
                        let from_entry = *from_entry;
                        match reg.get(t) {
                            None => true,
                            Some(to_entry) => !fs_reg_same(&from_entry, to_entry),
                        }
                    },
                }
            },
            FsDiff::Chmod(p, q) => match reg.get(p) {
                Some(FsReg::File(_, old_q)) => match old_q {
                    Some(oq) => !(*oq == *q),
                    None => true,
                },
                _ => false,
            },
        }
    }

    /// Register this diff into the file registry.
    pub fn register(&self, reg: &mut Registry) -> (r: Result<(), CollabError>)
        requires
            old(reg).wf(),
            self.wf(),
        ensures
            final(reg).wf(),
            final(reg)@ == spec_register(self@, old(reg)@),
            r is Ok <==> spec_register_ok(self@, old(reg)@),
    {
        match self {
            FsDiff::Write(p, data) => {
                let prior = match reg.get(p) {
                    Some(FsReg::File(_, Some(q))) => Some(*q),
                    _ => None,
                };
                reg.insert(p.clone(), FsReg::File(hash_file(data), prior));
                Ok(())
            },
            FsDiff::NewDir(p) => {
                reg.insert(p.clone(), FsReg::Dir);
                Ok(())
            },
            FsDiff::Del(p) => match reg.remove(p) {
                Some(_) => Ok(()),
                None => {
                    proof {
                        assert(reg@ =~= old(reg)@);
                    }
                    Err(CollabError::new("registry has no entry to delete"))
                },
            },
            FsDiff::Move(f, t) => match reg.remove(f) {
                Some(entry) => {
                    reg.insert(t.clone(), entry);
                    Ok(())
                },
                None => {
                    proof {
                        assert(reg@ =~= old(reg)@);
                    }
                    Ok(())
                },
            },
            FsDiff::Chmod(p, q) => {
                let hash = match reg.get(p) {
                    Some(FsReg::File(h, _)) => *h,
                    _ => {
                        return Err(CollabError::new("cannot chmod a path that is not a tracked file"));
                    },
                };
                reg.insert(p.clone(), FsReg::File(hash, Some(*q)));
                Ok(())
            },
        }
    }
}

/// A diff that does not change the registry leaves it untouched when
/// registered.  Two families of inputs are excluded: a `Write` over a path
/// currently registered as a directory, and a `Move` between two distinct
/// paths whose entries are equal — for those, `changes_register` reports no
/// change although `register` would rewrite the map.
pub proof fn lemma_register_idempotent(d: FsDiffV, m: Map<Seq<char>, FsReg>)
    requires
        !spec_changes_register(d, m),
        !(d matches FsDiffV::Write(p, _) && m.contains_key(p) && m[p] is Dir),
        !(d matches FsDiffV::Move(f, t) && f != t),
    ensures
        spec_register(d, m) == m,
{
    match d {
        FsDiffV::Write(p, data) => {
            assert(m.contains_key(p));
            assert(m[p] matches FsReg::File(h, _) && h == fnv1a(data));
            match m[p] {
                FsReg::File(h, q) => {
                    assert(spec_register(d, m) =~= m.insert(p, FsReg::File(h, q)));
                    assert(m.insert(p, m[p]) =~= m);
                },
                FsReg::Dir => {},
            }
        },
        FsDiffV::NewDir(p) => {
            assert(m.contains_key(p) && m[p] is Dir);
            assert(m.insert(p, FsReg::Dir) =~= m);
        },
        FsDiffV::Del(p) => {},
        FsDiffV::Move(f, t) => {
            if m.contains_key(f) {
                assert(f == t);
                assert(m.remove(f).insert(f, m[f]) =~= m);
            }
        },
        FsDiffV::Chmod(p, q) => {
            if m.contains_key(p) && m[p] is File {
                assert(m[p] matches FsReg::File(_, old_q) && old_q == Some(q));
                match m[p] {
                    FsReg::File(h, old_q) => {
                        assert(m.insert(p, FsReg::File(h, Some(q))) =~= m);
                    },
                    FsReg::Dir => {},
                }
            }
        },
    }
}

/// Echo suppression: a diff that does change the registry registers
/// successfully, and once registered, the identical diff — as re-observed by
/// the filesystem watcher after the change is applied to disk — no longer
/// changes the registry and is dropped by the router.
pub proof fn lemma_echo_suppression(d: FsDiffV, m: Map<Seq<char>, FsReg>)
    requires
        spec_changes_register(d, m),
    ensures
        spec_register_ok(d, m),
        !spec_changes_register(d, spec_register(d, m)),
{
}

} // verus!
