//! The layered ignore subsystem.
//!
//! The daemon honours `.gitignore`/`.ignore` files: ignored paths are never
//! registered or transmitted.  Matching is done by the `ignore` crate; this
//! module keeps the set of active ignore files with their rule lines, builds
//! the compiled matcher from their concatenation, and exposes the membership
//! test the watcher consults.  The compiled matcher is opaque to the
//! verifier: what it holds and what it answers are named, and every wrapper
//! states its effect on those names.

use vstd::prelude::*;

use crate::errors::CollabError;
use crate::paths::{is_rel_path, RelPath};

verus! {

#[verifier::external_type_specification]
#[verifier::external_body]
pub struct ExGitignore(ignore::gitignore::Gitignore);

#[verifier::external_type_specification]
#[verifier::external_body]
pub struct ExGitignoreBuilder(ignore::gitignore::GitignoreBuilder);

/// The rule lines a builder has accepted, in order.
pub uninterp spec fn builder_lines(b: ignore::gitignore::GitignoreBuilder) -> Seq<Seq<char>>;

/// The rule lines a compiled matcher was built from, in order.
pub uninterp spec fn matcher_lines(g: ignore::gitignore::Gitignore) -> Seq<Seq<char>>;

/// What the matcher answers for a path: whether the path or any parent is
/// ignored under these rules (whitelist rules override).  The answer depends
/// only on the rules, the path and whether it is a directory.
pub uninterp spec fn ignore_match(lines: Seq<Seq<char>>, path: Seq<char>, is_dir: bool) -> bool;

/// Whether one rule line parses as a glob: the verdict of the builder's
/// line parser, a function of the line text alone — the builder's options
/// never change.
pub uninterp spec fn glob_line_ok(line: Seq<char>) -> bool;

/// Whether a set of accepted rule lines compiles into a matcher: the
/// verdict of the set compiler, a function of the lines alone.
pub uninterp spec fn glob_set_ok(lines: Seq<Seq<char>>) -> bool;

/// Relies on GitignoreBuilder::new: a fresh builder holds no rules.  The
/// root is empty, so rules match relative paths as given.
#[verifier::external_body]
fn gb_new() -> (b: ignore::gitignore::GitignoreBuilder)
    ensures
        builder_lines(b) == Seq::<Seq<char>>::empty(),
{
    ignore::gitignore::GitignoreBuilder::new("")
}

/// Relies on GitignoreBuilder::add_line: it accepts or rejects a line by
/// parsing it as a glob, a verdict fixed by the line text; on success the
/// line is appended to the rules, on a glob error the builder is untouched.
#[verifier::external_body]
fn gb_add_line(b: &mut ignore::gitignore::GitignoreBuilder, line: &str) -> (ok: bool)
    ensures
        ok == glob_line_ok(line@),
        ok ==> builder_lines(*final(b)) == builder_lines(*old(b)).push(line@),
        !ok ==> builder_lines(*final(b)) == builder_lines(*old(b)),
{
    match b.add_line(None, line) {
        Ok(_) => true,
        Err(_) => false,
    }
}

/// Relies on GitignoreBuilder::build: it compiles the accepted rules into
/// a matcher, succeeding or failing as a function of those rules alone; on
/// success the matcher holds exactly the builder's rules.
#[verifier::external_body]
fn gb_build(b: &ignore::gitignore::GitignoreBuilder) -> (r: Option<ignore::gitignore::Gitignore>)
    ensures
        r is Some <==> glob_set_ok(builder_lines(*b)),
        r matches Some(g) ==> matcher_lines(g) == builder_lines(*b),
{
    match b.build() {
        Ok(g) => Some(g),
        Err(_) => None,
    }
}

/// Relies on Gitignore::empty: a matcher with no rules holds no globs, and
/// its match answer is `None` for every path, so the empty rule set ignores
/// nothing.
#[verifier::external_body]
fn gitignore_empty() -> (g: ignore::gitignore::Gitignore)
    ensures
        matcher_lines(g) == Seq::<Seq<char>>::empty(),
        forall|p: Seq<char>, d: bool| !ignore_match(matcher_lines(g), p, d),
{
    ignore::gitignore::Gitignore::empty()
}

/// Relies on Gitignore::matched_path_or_any_parents: true exactly when the
/// path or one of its parents matches in ignore mode.  The path must be
/// relative — the call panics on a rooted path.
#[verifier::external_body]
fn matcher_is_ignored(g: &ignore::gitignore::Gitignore, path: &str, is_dir: bool) -> (r: bool)
    requires
        is_rel_path(path@),
    ensures
        r == ignore_match(matcher_lines(*g), path@, is_dir),
{
    match g.matched_path_or_any_parents(std::path::Path::new(path), is_dir) {
        ignore::Match::Ignore(_) => true,
        ignore::Match::Whitelist(_) => false,
        ignore::Match::None => false,
    }
}

/// The views of one ignore file's lines.
pub open spec fn lines_of(v: Seq<String>) -> Seq<Seq<char>> {
    v.map_values(|s: String| s@)
}

/// The concatenated rules of a file list, in file order.
pub open spec fn flat_rules(files: Seq<(RelPath, Vec<String>)>) -> Seq<Seq<char>>
    decreases files.len(),
{
    if files.len() == 0 {
        Seq::empty()
    } else {
        flat_rules(files.drop_last()) + lines_of(files.last().1@)
    }
}

/// A recorded-file view list has an entry under this key.
pub open spec fn view_has_key(fv: Seq<(Seq<char>, Seq<Seq<char>>)>, k: Seq<char>) -> bool {
    exists|i: int| 0 <= i < fv.len() && (#[trigger] fv[i]).0 == k
}

/// The concatenated rules of a recorded-file view list, in file order.
pub open spec fn flat_view_rules(fv: Seq<(Seq<char>, Seq<Seq<char>>)>) -> Seq<Seq<char>>
    decreases fv.len(),
{
    if fv.len() == 0 {
        Seq::empty()
    } else {
        flat_view_rules(fv.drop_last()) + fv.last().1
    }
}

/// Every line of a rule set parses as a glob.
pub open spec fn lines_ok(ls: Seq<Seq<char>>) -> bool {
    forall|i: int| 0 <= i < ls.len() ==> glob_line_ok(#[trigger] ls[i])
}

/// A rule set can be compiled: every line parses, and the set builds.
pub open spec fn rules_build_ok(ls: Seq<Seq<char>>) -> bool {
    lines_ok(ls) && glob_set_ok(ls)
}

/// The recorded-file view list after one file is recorded or re-recorded.
pub open spec fn upsert_view(
    fv: Seq<(Seq<char>, Seq<Seq<char>>)>,
    k: Seq<char>,
    v: Seq<Seq<char>>,
) -> Seq<(Seq<char>, Seq<Seq<char>>)> {
    if view_has_key(fv, k) {
        Seq::new(fv.len(), |i: int| if fv[i].0 == k {
            (k, v)
        } else {
            fv[i]
        })
    } else {
        fv.push((k, v))
    }
}

/// The recorded-file view list after one file is dropped.
pub open spec fn remove_view(
    fv: Seq<(Seq<char>, Seq<Seq<char>>)>,
    k: Seq<char>,
) -> Seq<(Seq<char>, Seq<Seq<char>>)> {
    if view_has_key(fv, k) {
        fv.remove(choose|i: int| 0 <= i < fv.len() && (#[trigger] fv[i]).0 == k)
    } else {
        fv
    }
}

/// The flat rules of a file list and of its view agree.
proof fn lemma_flat_rules_view(files: Seq<(RelPath, Vec<String>)>)
    ensures
        flat_view_rules(files.map_values(|f: (RelPath, Vec<String>)| (f.0@, lines_of(f.1@))))
            == flat_rules(files),
    decreases files.len(),
{
    let fv = files.map_values(|f: (RelPath, Vec<String>)| (f.0@, lines_of(f.1@)));
    if files.len() > 0 {
        lemma_flat_rules_view(files.drop_last());
        assert(fv.drop_last() =~= files.drop_last().map_values(
            |f: (RelPath, Vec<String>)| (f.0@, lines_of(f.1@)),
        ));
        assert(fv.last().1 == lines_of(files.last().1@));
    } else {
        assert(fv.len() == 0);
    }
}

/// The flat rules split at any file boundary.
proof fn lemma_flat_split(files: Seq<(RelPath, Vec<String>)>, k: int)
    requires
        0 <= k <= files.len(),
    ensures
        flat_rules(files) == flat_rules(files.take(k)) + flat_rules(files.skip(k)),
    decreases files.len(),
{
    if k == files.len() {
        assert(files.take(k) =~= files);
        assert(files.skip(k).len() == 0);
        assert(flat_rules(files.skip(k)) =~= Seq::<Seq<char>>::empty());
        assert(flat_rules(files) =~= flat_rules(files.take(k)) + flat_rules(files.skip(k)));
    } else {
        assert(files.len() > 0);
        lemma_flat_split(files.drop_last(), k);
        assert(files.drop_last().take(k) =~= files.take(k));
        assert(files.drop_last().skip(k) =~= files.skip(k).drop_last());
        assert(files.skip(k).len() > 0);
        assert(files.skip(k).last() == files.last());
        assert(flat_rules(files.skip(k)) == flat_rules(files.skip(k).drop_last()) + lines_of(
            files.last().1@,
        ));
        assert(flat_rules(files) =~= flat_rules(files.take(k)) + flat_rules(files.skip(k)));
    }
}

/// Where one file's lines sit inside the flat rules.
proof fn lemma_flat_index(files: Seq<(RelPath, Vec<String>)>, i: int, j: int)
    requires
        0 <= i < files.len(),
        0 <= j < files[i].1@.len(),
    ensures
        flat_rules(files.take(i)).len() + j < flat_rules(files).len(),
        flat_rules(files)[flat_rules(files.take(i)).len() + j] == files[i].1@[j]@,
{
    lemma_flat_split(files, i);
    lemma_flat_split(files.skip(i), 1);
    let single = files.skip(i).take(1);
    assert(single.len() == 1);
    assert(single.drop_last() =~= Seq::<(RelPath, Vec<String>)>::empty());
    assert(single.last() == files[i]);
    assert(flat_rules(Seq::<(RelPath, Vec<String>)>::empty()) =~= Seq::<Seq<char>>::empty());
    assert(flat_rules(single) == flat_rules(single.drop_last()) + lines_of(single.last().1@));
    assert(flat_rules(single) =~= lines_of(files[i].1@));
    assert(files.skip(i).skip(1) =~= files.skip(i + 1));
    assert(flat_rules(files.skip(i)) == lines_of(files[i].1@) + flat_rules(files.skip(i + 1)));
    assert(flat_rules(files) == flat_rules(files.take(i)) + (lines_of(files[i].1@) + flat_rules(
        files.skip(i + 1),
    )));
    assert(flat_rules(files)[flat_rules(files.take(i)).len() + j] == lines_of(files[i].1@)[j]);
}

/// Re-recording a file with unchanged lines leaves the recorded list as it
/// was: the ignore subsystem's bookkeeping is idempotent.
pub proof fn lemma_record_unchanged(
    fv: Seq<(Seq<char>, Seq<Seq<char>>)>,
    k: Seq<char>,
    v: Seq<Seq<char>>,
)
    requires
        forall|a: int, b: int| 0 <= a < b < fv.len() ==> fv[a].0 != fv[b].0,
        exists|i: int| 0 <= i < fv.len() && (#[trigger] fv[i]).0 == k && fv[i].1 == v,
    ensures
        upsert_view(fv, k, v) == fv,
{
    let w = choose|i: int| 0 <= i < fv.len() && (#[trigger] fv[i]).0 == k && fv[i].1 == v;
    assert(view_has_key(fv, k));
    assert forall|j: int| 0 <= j < fv.len() implies upsert_view(fv, k, v)[j] == fv[j] by {
        if fv[j].0 == k {
            assert(j == w);
        }
    }
    assert(upsert_view(fv, k, v) =~= fv);
}

/// The active ignore files and the matcher compiled from their rules.
#[derive(Debug)]
pub struct Ignore {
    files: Vec<(RelPath, Vec<String>)>,
    matcher: ignore::gitignore::Gitignore,
}

/// Compile a matcher from a file list.  Succeeds exactly when every rule
/// line parses as a glob and the whole set builds; on success the matcher
/// holds exactly the list's concatenated rules.
#[verifier::loop_isolation(false)]
fn rebuild_from(files: &Vec<(RelPath, Vec<String>)>) -> (r: Option<ignore::gitignore::Gitignore>)
    ensures
        r matches Some(g) ==> matcher_lines(g) == flat_rules(files@),
        r is Some <==> rules_build_ok(flat_rules(files@)),
{
    let mut b = gb_new();
    let mut i: usize = 0;
    proof {
        assert(flat_rules(files@.take(0)) =~= Seq::<Seq<char>>::empty());
    }
    while i < files.len()
        invariant
            i <= files@.len(),
            builder_lines(b) == flat_rules(files@.take(i as int)),
            lines_ok(builder_lines(b)),
        decreases files@.len() - i,
    {
        let lines = &files[i].1;
        let mut j: usize = 0;
        proof {
            assert(lines_of(lines@.take(0)) =~= Seq::<Seq<char>>::empty());
            assert(builder_lines(b) =~= flat_rules(files@.take(i as int)) + lines_of(
                lines@.take(0),
            ));
        }
        while j < lines.len()
            invariant
                j <= lines@.len(),
                i < files@.len(),
                lines == &files@[i as int].1,
                builder_lines(b) == flat_rules(files@.take(i as int)) + lines_of(
                    lines@.take(j as int),
                ),
                lines_ok(builder_lines(b)),
            decreases lines@.len() - j,
        {
            let ok = gb_add_line(&mut b, lines[j].as_str());
            if !ok {
                proof {
                    // this very line sits in the flat rules: one bad line
                    // refutes the whole set
                    lemma_flat_index(files@, i as int, j as int);
                    assert(!glob_line_ok(flat_rules(files@)[flat_rules(
                        files@.take(i as int),
                    ).len() + j]));
                    assert(!lines_ok(flat_rules(files@)));
                }
                return None;
            }
            proof {
                assert(lines@.take(j + 1 as int) =~= lines@.take(j as int).push(lines@[j as int]));
                assert(lines_of(lines@.take(j + 1 as int)) =~= lines_of(lines@.take(j as int)).push(
                    lines@[j as int]@,
                ));
                assert(builder_lines(b) =~= flat_rules(files@.take(i as int)) + lines_of(
                    lines@.take(j + 1 as int),
                ));
                assert forall|x: int| 0 <= x < builder_lines(b).len() implies glob_line_ok(
                    #[trigger] builder_lines(b)[x],
                ) by {
                    if x == builder_lines(b).len() - 1 {
                        assert(builder_lines(b)[x] == lines@[j as int]@);
                    }
                }
            }
            j = j + 1;
        }
        proof {
            assert(lines@.take(lines@.len() as int) =~= lines@);
            assert(files@.take(i + 1 as int).drop_last() =~= files@.take(i as int));
            assert(files@.take(i + 1 as int).last() == files@[i as int]);
            assert(builder_lines(b) =~= flat_rules(files@.take(i + 1 as int)));
        }
        i = i + 1;
    }
    proof {
        assert(files@.take(files@.len() as int) =~= files@);
    }
    gb_build(&b)
}

impl Ignore {
    /// The active rules, in order: the concatenation of every recorded
    /// ignore file's lines.
    pub closed spec fn rules(&self) -> Seq<Seq<char>> {
        flat_rules(self.files@)
    }

    /// The recorded ignore files: source path and line views.
    pub closed spec fn files_view(&self) -> Seq<(Seq<char>, Seq<Seq<char>>)> {
        self.files@.map_values(|f: (RelPath, Vec<String>)| (f.0@, lines_of(f.1@)))
    }

    /// An ignore file is recorded under this source path: the recorded
    /// list has an entry with this key.
    pub open spec fn has_path(&self, k: Seq<char>) -> bool {
        view_has_key(self.files_view(), k)
    }

    /// The active rules are exactly the concatenated lines of the recorded
    /// files, so two subsystems with equal recorded lists answer alike.
    pub proof fn lemma_rules_of_view(&self)
        ensures
            self.rules() == flat_view_rules(self.files_view()),
    {
        lemma_flat_rules_view(self.files@);
    }

    /// The recorded files carry pairwise distinct source paths.
    pub proof fn lemma_unique_paths(&self)
        requires
            self.wf(),
        ensures
            forall|a: int, b: int|
                0 <= a < b < self.files_view().len() ==> self.files_view()[a].0
                    != self.files_view()[b].0,
    {
    }

    /// The compiled matcher agrees with the recorded rules, and each
    /// ignore file is recorded once.
    pub closed spec fn wf(&self) -> bool {
        &&& matcher_lines(self.matcher) == flat_rules(self.files@)
        &&& forall|a: int, b: int|
            0 <= a < b < self.files@.len() ==> self.files@[a].0@ != self.files@[b].0@
    }

    /// A subsystem with no ignore files: nothing is ignored, of any path.
    pub fn new() -> (r: Ignore)
        ensures
            r.wf(),
            r.files_view() == Seq::<(Seq<char>, Seq<Seq<char>>)>::empty(),
            r.rules() == Seq::<Seq<char>>::empty(),
            forall|p: Seq<char>, d: bool| !ignore_match(r.rules(), p, d),
    {
        let r = Ignore { files: Vec::new(), matcher: gitignore_empty() };
        proof {
            assert(r.files_view() =~= Seq::<(Seq<char>, Seq<Seq<char>>)>::empty());
        }
        r
    }

    /// Index of the record for a source path.
    fn find_file(&self, path: &RelPath) -> (r: Option<usize>)
        ensures
            match r {
                Some(i) => i < self.files@.len() && self.files@[i as int].0@ == path@,
                None => forall|i: int|
                    0 <= i < self.files@.len() ==> (#[trigger] self.files@[i]).0@ != path@,
            },
    {
        let mut i: usize = 0;
        while i < self.files.len()
            invariant
                i <= self.files@.len(),
                forall|j: int| 0 <= j < i ==> (#[trigger] self.files@[j]).0@ != path@,
            decreases self.files@.len() - i,
        {
            if self.files[i].0.same(path) {
                return Some(i);
            }
            i = i + 1;
        }
        None
    }

    /// An ignore file appeared or changed: record its lines and rebuild the
    /// matcher from the concatenation of every recorded file's lines.  This
    /// succeeds exactly when the new rule set compiles — a verdict fixed by
    /// the rule text alone; on failure the subsystem is left exactly as it
    /// was.
    pub fn ignore_file_modified(&mut self, path: &RelPath, lines: Vec<String>) -> (r: Result<
        (),
        CollabError,
    >)
        requires
            old(self).wf(),
        ensures
            final(self).wf(),
            r is Ok <==> rules_build_ok(
                flat_view_rules(upsert_view(old(self).files_view(), path@, lines_of(lines@))),
            ),
            r is Err ==> final(self).files_view() == old(self).files_view(),
            r is Ok ==> final(self).files_view() == upsert_view(
                old(self).files_view(),
                path@,
                lines_of(lines@),
            ),
    {
        let mut new_files = clone_files(&self.files);
        match self.find_file(path) {
            Some(i) => {
                let key = path.clone();
                new_files[i] = (key, lines);
                proof {
                    assert(view_has_key(old(self).files_view(), path@)) by {
                        assert(old(self).files_view()[i as int].0 == path@);
                    }
                }
            },
            None => {
                let key = path.clone();
                new_files.push((key, lines));
                proof {
                    assert(!view_has_key(old(self).files_view(), path@)) by {
                        if view_has_key(old(self).files_view(), path@) {
                            let w = choose|w: int|
                                0 <= w < old(self).files_view().len() && (#[trigger] old(
                                    self,
                                ).files_view()[w]).0 == path@;
                            assert(old(self).files@[w].0@ == path@);
                        }
                    }
                }
            },
        }
        let ghost candidate = upsert_view(old(self).files_view(), path@, lines_of(lines@));
        proof {
            if view_has_key(old(self).files_view(), path@) {
                let w = choose|w: int|
                    0 <= w < old(self).files_view().len() && (#[trigger] old(
                        self,
                    ).files_view()[w]).0 == path@;
                assert forall|j: int| 0 <= j < new_files@.len() implies (
                    #[trigger] new_files@[j]).0@ == candidate[j].0 && lines_of(new_files@[j].1@)
                    == candidate[j].1 by {
                    if old(self).files_view()[j].0 == path@ {
                        assert(old(self).files@[j].0@ == path@);
                        assert(old(self).files@[w].0@ == path@);
                        assert(j == w);
                    }
                }
            }
            assert(new_files@.map_values(|f: (RelPath, Vec<String>)| (f.0@, lines_of(f.1@)))
                =~= candidate);
            lemma_flat_rules_view(new_files@);
        }
        match rebuild_from(&new_files) {
            Some(g) => {
                self.files = new_files;
                self.matcher = g;
                proof {
                    assert(self.files_view() =~= candidate);
                }
                Ok(())
            },
            None => Err(CollabError::new("cannot compile ignore rules")),
        }
    }

    /// An ignore file disappeared: drop its record and rebuild from what
    /// remains.  A path that was never recorded is a no-op; otherwise this
    /// succeeds exactly when the remaining rule set compiles, and on
    /// failure the subsystem is left exactly as it was.
    pub fn ignore_file_removed(&mut self, path: &RelPath) -> (r: Result<(), CollabError>)
        requires
            old(self).wf(),
        ensures
            final(self).wf(),
            r is Ok <==> !old(self).has_path(path@) || rules_build_ok(
                flat_view_rules(remove_view(old(self).files_view(), path@)),
            ),
            r is Err ==> final(self).files_view() == old(self).files_view(),
            r is Ok ==> final(self).files_view() == remove_view(old(self).files_view(), path@),
    {
        match self.find_file(path) {
            None => {
                proof {
                    assert(!view_has_key(self.files_view(), path@)) by {
                        if view_has_key(self.files_view(), path@) {
                            let w = choose|w: int|
                                0 <= w < self.files_view().len() && (#[trigger] self.files_view()[w]).0
                                    == path@;
                            assert(self.files@[w].0@ == path@);
                        }
                    }
                }
                Ok(())
            },
            Some(i) => {
                let mut new_files = clone_files(&self.files);
                let _ = new_files.remove(i);
                let ghost candidate = remove_view(old(self).files_view(), path@);
                proof {
                    assert(view_has_key(old(self).files_view(), path@)) by {
                        assert(old(self).files_view()[i as int].0 == path@);
                    }
                    let c = choose|c: int|
                        0 <= c < old(self).files_view().len() && (#[trigger] old(
                            self,
                        ).files_view()[c]).0 == path@;
                    assert(old(self).files@[c].0@ == path@);
                    assert(c == i as int);
                    assert(new_files@.map_values(|f: (RelPath, Vec<String>)| (f.0@, lines_of(f.1@)))
                        =~= candidate);
                    lemma_flat_rules_view(new_files@);
                }
                match rebuild_from(&new_files) {
                    Some(g) => {
                        self.files = new_files;
                        self.matcher = g;
                        proof {
                            assert(self.files_view() =~= candidate);
                        }
                        Ok(())
                    },
                    None => Err(CollabError::new("cannot compile ignore rules")),
                }
            },
        }
    }

    /// Whether a path is ignored under the active rules.
    pub fn is_ignored(&self, path: &RelPath, is_dir: bool) -> (r: bool)
        requires
            self.wf(),
            path.wf(),
        ensures
            r == ignore_match(self.rules(), path@, is_dir),
    {
        matcher_is_ignored(&self.matcher, path.as_str(), is_dir)
    }
}

/// Clone a file list, keeping paths and lines.
fn clone_files(v: &Vec<(RelPath, Vec<String>)>) -> (r: Vec<(RelPath, Vec<String>)>)
    ensures
        r@.len() == v@.len(),
        forall|i: int|
            0 <= i < v@.len() ==> (#[trigger] r@[i]).0@ == v@[i].0@ && lines_of(r@[i].1@)
                == lines_of(v@[i].1@),
{
    let mut out: Vec<(RelPath, Vec<String>)> = Vec::new();
    let mut i: usize = 0;
    while i < v.len()
        invariant
            i <= v@.len(),
            out@.len() == i,
            forall|j: int|
                0 <= j < i ==> (#[trigger] out@[j]).0@ == v@[j].0@ && lines_of(out@[j].1@)
                    == lines_of(v@[j].1@),
        decreases v@.len() - i,
    {
        let p = v[i].0.clone();
        let l = clone_lines(&v[i].1);
        out.push((p, l));
        i = i + 1;
    }
    out
}

/// Clone a line list, keeping every line.
fn clone_lines(v: &Vec<String>) -> (r: Vec<String>)
    ensures
        lines_of(r@) == lines_of(v@),
        r@.len() == v@.len(),
{
    let mut out: Vec<String> = Vec::new();
    let mut i: usize = 0;
    while i < v.len()
        invariant
            i <= v@.len(),
            out@.len() == i,
            forall|j: int| 0 <= j < i ==> (#[trigger] out@[j])@ == v@[j]@,
        decreases v@.len() - i,
    {
        out.push(v[i].clone());
        i = i + 1;
    }
    proof {
        assert(lines_of(out@) =~= lines_of(v@));
    }
    out
}

/// The base name of a slash-separated path: the suffix after the last `/`.
pub open spec fn base_of(b: Seq<u8>) -> Seq<u8>
    decreases b.len(),
{
    if b.len() == 0 {
        b
    } else if b.last() == 0x2f {
        Seq::empty()
    } else {
        base_of(b.drop_last()).push(b.last())
    }
}

/// The two file names whose changes rebuild the ignore rules.
pub open spec fn spec_is_ignore_file(b: Seq<u8>) -> bool {
    ||| base_of(b) == seq![0x2eu8, 0x67, 0x69, 0x74, 0x69, 0x67, 0x6e, 0x6f, 0x72, 0x65]
    ||| base_of(b) == seq![0x2eu8, 0x69, 0x67, 0x6e, 0x6f, 0x72, 0x65]
}

/// True iff the path names a `.gitignore` or `.ignore` file.
#[verifier::loop_isolation(false)]
pub fn is_ignore_file(path: &RelPath) -> (r: bool)
    ensures
        r == spec_is_ignore_file(vstd::utf8::encode_utf8(path@)),
{
    let bytes = crate::wire::string_to_bytes(path.as_str());
    // find where the base name starts
    let mut start: usize = bytes.len();
    while start > 0 && bytes[start - 1] != 0x2f
        invariant
            start <= bytes@.len(),
            forall|j: int| start <= j < bytes@.len() ==> bytes@[j] != 0x2f,
        decreases start,
    {
        start = start - 1;
    }
    proof {
        lemma_base_of_suffix(bytes@, start as int);
    }
    let base_len = bytes.len() - start;
    if base_len == 10 {
        let pat: [u8; 10] = [0x2e, 0x67, 0x69, 0x74, 0x69, 0x67, 0x6e, 0x6f, 0x72, 0x65];
        let mut k: usize = 0;
        while k < 10
            invariant
                k <= 10,
                base_len == 10,
                start + 10 == bytes@.len(),
                start <= bytes@.len(),
                pat@ =~= seq![0x2eu8, 0x67, 0x69, 0x74, 0x69, 0x67, 0x6e, 0x6f, 0x72, 0x65],
                forall|j: int| 0 <= j < k ==> bytes@[start + j] == pat@[j],
            decreases 10 - k,
        {
            if bytes[start + k] != pat[k] {
                proof {
                    assert(bytes@.skip(start as int)[k as int] != pat@[k as int]);
                    assert(base_of(bytes@) != pat@);
                    assert(base_of(bytes@).len() == 10);
                }
                return false;
            }
            k = k + 1;
        }
        proof {
            assert(bytes@.skip(start as int) =~= pat@);
        }
        true
    } else if base_len == 7 {
        let pat: [u8; 7] = [0x2e, 0x69, 0x67, 0x6e, 0x6f, 0x72, 0x65];
        let mut k: usize = 0;
        while k < 7
            invariant
                k <= 7,
                base_len == 7,
                start + 7 == bytes@.len(),
                start <= bytes@.len(),
                pat@ =~= seq![0x2eu8, 0x69, 0x67, 0x6e, 0x6f, 0x72, 0x65],
                forall|j: int| 0 <= j < k ==> bytes@[start + j] == pat@[j],
            decreases 7 - k,
        {
            if bytes[start + k] != pat[k] {
                proof {
                    assert(bytes@.skip(start as int)[k as int] != pat@[k as int]);
                    assert(base_of(bytes@) != pat@);
                    assert(base_of(bytes@).len() == 7);
                }
                return false;
            }
            k = k + 1;
        }
        proof {
            assert(bytes@.skip(start as int) =~= pat@);
        }
        true
    } else {
        proof {
            assert(base_of(bytes@).len() != 10 && base_of(bytes@).len() != 7);
        }
        false
    }
}

/// The base name is the suffix from `start`, when everything from `start`
/// on is slash-free and `start` is either zero or sits right after a slash.
proof fn lemma_base_of_suffix(b: Seq<u8>, start: int)
    requires
        0 <= start <= b.len(),
        forall|j: int| start <= j < b.len() ==> b[j] != 0x2f,
        start > 0 ==> b[start - 1] == 0x2f,
    ensures
        base_of(b) == b.skip(start),
    decreases b.len() - start,
{
    if start == b.len() {
        if start > 0 {
            assert(b.last() == 0x2f);
            assert(base_of(b) =~= b.skip(start));
        } else {
            assert(b.len() == 0);
            assert(base_of(b) =~= b.skip(start));
        }
    } else {
        lemma_base_of_take(b, start, b.len() as int);
    }
}

/// Helper: peeling slash-free bytes off the back keeps the relation.
proof fn lemma_base_of_take(b: Seq<u8>, start: int, upto: int)
    requires
        0 <= start < upto <= b.len(),
        forall|j: int| start <= j < b.len() ==> b[j] != 0x2f,
        start > 0 ==> b[start - 1] == 0x2f,
        upto == b.len(),
    ensures
        base_of(b) == b.skip(start),
    decreases b.len(),
{
    assert(b.last() != 0x2f);
    if b.len() == start + 1 {
        assert(b.drop_last().len() == start);
        if start > 0 {
            assert(b.drop_last().last() == 0x2f);
            assert(base_of(b.drop_last()) =~= Seq::<u8>::empty());
        } else {
            assert(base_of(b.drop_last()) =~= Seq::<u8>::empty());
        }
        assert(base_of(b) =~= b.skip(start));
    } else {
        assert(forall|j: int| start <= j < b.drop_last().len() ==> b.drop_last()[j] != 0x2f);
        assert(start > 0 ==> b.drop_last()[start - 1] == 0x2f);
        lemma_base_of_take(b.drop_last(), start, upto - 1);
        assert(base_of(b) =~= b.skip(start));
    }
}

} // verus!
