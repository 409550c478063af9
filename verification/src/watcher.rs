//! The watcher's decision logic: which diffs a filesystem notification
//! becomes, under the active ignore rules.
//!
//! The surrounding process owns the OS watch and the disk: it refreshes the
//! ignore subsystem when an ignore file itself changed, asks here what the
//! event means, and then reads file contents or permissions where the plan
//! says so.  No plan ever emits a path the matcher ignores — that, together
//! with the registry's echo suppression, is what keeps ignored paths out of
//! every peer's registry.

use vstd::prelude::*;

use crate::matcher::{ignore_match, is_ignore_file, spec_is_ignore_file, Ignore};
use crate::paths::RelPath;

verus! {

/// One debounced filesystem notification, with paths already made relative
/// to the session root.
#[derive(Debug)]
pub enum WatchEvent {
    /// A directory appeared.
    CreateDir(RelPath),
    /// A file appeared or its contents changed.
    WriteFile(RelPath),
    /// A file or directory disappeared.
    Remove(RelPath),
    /// A rename from the first path to the second; the flag says whether
    /// the destination names a directory.  The source is gone from disk, so
    /// it is matched as a file, as the matcher would see it.
    Rename(RelPath, RelPath, bool),
    /// A permissions change.
    Chmod(RelPath),
}

impl WatchEvent {
    /// Every path named by the event is a valid relative path.
    pub open spec fn wf(&self) -> bool {
        match self {
            WatchEvent::CreateDir(p) => p.wf(),
            WatchEvent::WriteFile(p) => p.wf(),
            WatchEvent::Remove(p) => p.wf(),
            WatchEvent::Rename(f, t, _) => f.wf() && t.wf(),
            WatchEvent::Chmod(p) => p.wf(),
        }
    }
}

/// What the process must do for one event.
#[derive(Debug)]
pub enum WatchAction {
    /// Submit a directory creation for this path.
    EmitDir(RelPath),
    /// Read the file and submit its contents and permissions.
    ReadFile(RelPath),
    /// Submit a deletion for this path.
    EmitDel(RelPath),
    /// Submit a move between these paths.
    EmitMove(RelPath, RelPath),
    /// Read the permissions only and submit them.
    ReadPerm(RelPath),
}

/// The path a planned action will put on the wire, and whether it names a
/// directory there.
pub open spec fn action_path(a: WatchAction) -> (Seq<char>, bool) {
    match a {
        WatchAction::EmitDir(p) => (p@, true),
        WatchAction::ReadFile(p) => (p@, false),
        WatchAction::EmitDel(p) => (p@, false),
        WatchAction::EmitMove(f, t) => (f@, false),
        WatchAction::ReadPerm(p) => (p@, false),
    }
}

/// Decide what a notification means under the active ignore rules.  The
/// caller has already refreshed the ignore subsystem for any ignore file
/// named by the event; the second result asks it to rescan the whole tree,
/// because a changed ignore file can expose formerly ignored paths.
pub fn watch_decision(ignore: &Ignore, ev: &WatchEvent) -> (r: (Vec<WatchAction>, bool))
    requires
        ignore.wf(),
        ev.wf(),
    ensures
        // no action names an ignored path
        forall|i: int|
            0 <= i < r.0@.len() ==> !ignore_match(
                ignore.rules(),
                action_path(#[trigger] r.0@[i]).0,
                action_path(r.0@[i]).1,
            ),
        // a rescan happens exactly when an ignore file was touched
        r.1 == (match ev {
            WatchEvent::CreateDir(_) => false,
            WatchEvent::WriteFile(p) => spec_is_ignore_file(vstd::utf8::encode_utf8(p@)),
            WatchEvent::Remove(p) => spec_is_ignore_file(vstd::utf8::encode_utf8(p@)),
            WatchEvent::Rename(f, t, _) => spec_is_ignore_file(vstd::utf8::encode_utf8(f@))
                || spec_is_ignore_file(vstd::utf8::encode_utf8(t@)),
            WatchEvent::Chmod(_) => false,
        }),
        // what is planned, case by case
        ev is CreateDir && !ignore_match(ignore.rules(), ev->CreateDir_0@, true)
            ==> (r.0@[0] matches WatchAction::EmitDir(q) && q@ == ev->CreateDir_0@
            && r.0@.len() == 1),
        ev is CreateDir && ignore_match(ignore.rules(), ev->CreateDir_0@, true)
            ==> r.0@ =~= Seq::<WatchAction>::empty(),
        ev is WriteFile && !ignore_match(ignore.rules(), ev->WriteFile_0@, false)
            ==> (r.0@[0] matches WatchAction::ReadFile(q) && q@ == ev->WriteFile_0@
            && r.0@.len() == 1),
        ev is WriteFile && ignore_match(ignore.rules(), ev->WriteFile_0@, false)
            ==> r.0@ =~= Seq::<WatchAction>::empty(),
        ev is Remove && !ignore_match(ignore.rules(), ev->Remove_0@, false)
            ==> (r.0@[0] matches WatchAction::EmitDel(q) && q@ == ev->Remove_0@
            && r.0@.len() == 1),
        ev is Remove && ignore_match(ignore.rules(), ev->Remove_0@, false)
            ==> r.0@ =~= Seq::<WatchAction>::empty(),
        ev is Rename && !ignore_match(ignore.rules(), ev->Rename_0@, false)
            && !ignore_match(ignore.rules(), ev->Rename_1@, ev->Rename_2) ==> (r.0@[0] matches
            WatchAction::EmitMove(qf, qt) && qf@ == ev->Rename_0@ && qt@ == ev->Rename_1@
            && r.0@.len() == 1),
        ev is Rename && !ignore_match(ignore.rules(), ev->Rename_0@, false)
            && ignore_match(ignore.rules(), ev->Rename_1@, ev->Rename_2) ==> (r.0@[0] matches
            WatchAction::EmitDel(q) && q@ == ev->Rename_0@ && r.0@.len() == 1),
        ev is Rename && !ev->Rename_2 && ignore_match(ignore.rules(), ev->Rename_0@, false)
            && !ignore_match(ignore.rules(), ev->Rename_1@, false) ==> (r.0@[0] matches
            WatchAction::ReadFile(q) && q@ == ev->Rename_1@ && r.0@.len() == 1),
        ev is Rename && ev->Rename_2 && ignore_match(ignore.rules(), ev->Rename_0@, false)
            && !ignore_match(ignore.rules(), ev->Rename_1@, true) ==> (r.0@[0] matches
            WatchAction::EmitDir(q) && q@ == ev->Rename_1@ && r.0@.len() == 1),
        ev is Rename && ignore_match(ignore.rules(), ev->Rename_0@, false)
            && ignore_match(ignore.rules(), ev->Rename_1@, ev->Rename_2) ==> r.0@ =~= Seq::<
            WatchAction,
        >::empty(),
        ev is Chmod && !ignore_match(ignore.rules(), ev->Chmod_0@, false)
            ==> (r.0@[0] matches WatchAction::ReadPerm(q) && q@ == ev->Chmod_0@
            && r.0@.len() == 1),
        ev is Chmod && ignore_match(ignore.rules(), ev->Chmod_0@, false)
            ==> r.0@ =~= Seq::<WatchAction>::empty(),
{
    let mut acts: Vec<WatchAction> = Vec::new();
    let rescan: bool;
    match ev {
        WatchEvent::CreateDir(p) => {
            rescan = false;
            if !ignore.is_ignored(p, true) {
                acts.push(WatchAction::EmitDir(p.clone()));
            }
        },
        WatchEvent::WriteFile(p) => {
            rescan = is_ignore_file(p);
            if !ignore.is_ignored(p, false) {
                acts.push(WatchAction::ReadFile(p.clone()));
            }
        },
        WatchEvent::Remove(p) => {
            rescan = is_ignore_file(p);
            if !ignore.is_ignored(p, false) {
                acts.push(WatchAction::EmitDel(p.clone()));
            }
        },
        WatchEvent::Rename(f, t, to_is_dir) => {
            rescan = is_ignore_file(f) || is_ignore_file(t);
            let ignored_f = ignore.is_ignored(f, false);
            let ignored_t = ignore.is_ignored(t, *to_is_dir);
            if !ignored_f && !ignored_t {
                acts.push(WatchAction::EmitMove(f.clone(), t.clone()));
            } else if !ignored_f {
                // the file left the tracked set: it looks deleted
                acts.push(WatchAction::EmitDel(f.clone()));
            } else if !ignored_t {
                // the path entered the tracked set: it looks created
                if *to_is_dir {
                    acts.push(WatchAction::EmitDir(t.clone()));
                } else {
                    acts.push(WatchAction::ReadFile(t.clone()));
                }
            }
        },
        WatchEvent::Chmod(p) => {
            rescan = false;
            if !ignore.is_ignored(p, false) {
                acts.push(WatchAction::ReadPerm(p.clone()));
            }
        },
    }
    (acts, rescan)
}

} // verus!
