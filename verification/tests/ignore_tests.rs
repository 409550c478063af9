use collab::matcher::{is_ignore_file, Ignore};
use collab::watcher::{watch_decision, WatchAction, WatchEvent};
use collab::paths::RelPath;

fn rp(s: &str) -> RelPath {
    RelPath::new(s.to_string()).unwrap()
}

fn lines(text: &str) -> Vec<String> {
    text.lines().map(|l| l.to_string()).collect()
}

#[test]
fn ignore_file_names() {
    assert!(is_ignore_file(&rp(".ignore")));
    assert!(is_ignore_file(&rp(".gitignore")));
    assert!(is_ignore_file(&rp("sub/dir/.gitignore")));
    assert!(!is_ignore_file(&rp("notignore")));
    assert!(!is_ignore_file(&rp("dir/.ignored")));
    assert!(!is_ignore_file(&rp("gitignore")));
}

#[test]
fn empty_subsystem_ignores_nothing() {
    let ig = Ignore::new();
    assert!(!ig.is_ignored(&rp("anything"), false));
    assert!(!ig.is_ignored(&rp("a/b/c"), true));
}

#[test]
fn ignorefile_patterns_match() {
    // the rule set every daemon pair must agree on: plain names, directory
    // names, globs, and a whitelist override
    let mut ig = Ignore::new();
    ig.ignore_file_modified(
        &rp(".ignore"),
        lines("ignored_file\nignored_directory\n*.ignored\n!whitelisted.ignored\n"),
    )
    .unwrap();
    assert!(ig.is_ignored(&rp("ignored_file"), false));
    assert!(ig.is_ignored(&rp("ignored_directory"), true));
    assert!(ig.is_ignored(&rp("ignored_directory/a"), false));
    assert!(ig.is_ignored(&rp("a.ignored"), false));
    assert!(ig.is_ignored(&rp("b.ignored"), false));
    assert!(!ig.is_ignored(&rp("whitelisted.ignored"), false));
    assert!(!ig.is_ignored(&rp(".ignore"), false));
    assert!(!ig.is_ignored(&rp("foobar"), false));
}

#[test]
fn ignorefile_item_added_and_removed() {
    let mut ig = Ignore::new();
    ig.ignore_file_modified(&rp(".ignore"), lines("foobar\n")).unwrap();
    assert!(ig.is_ignored(&rp("foobar"), false));
    // the rule disappears when the file's contents change
    ig.ignore_file_modified(&rp(".ignore"), lines("other\n")).unwrap();
    assert!(!ig.is_ignored(&rp("foobar"), false));
    assert!(ig.is_ignored(&rp("other"), false));
    // and the whole layer disappears when the file is deleted
    ig.ignore_file_removed(&rp(".ignore")).unwrap();
    assert!(!ig.is_ignored(&rp("other"), false));
}

#[test]
fn bad_rule_line_is_rejected_and_state_kept() {
    let mut ig = Ignore::new();
    ig.ignore_file_modified(&rp(".ignore"), lines("keepme\n")).unwrap();
    // a lone backslash is a dangling escape: the glob does not parse, the
    // call fails, and the previous rules stay in force
    let res = ig.ignore_file_modified(&rp(".ignore"), vec!["\\".to_string()]);
    assert!(res.is_err());
    assert!(ig.is_ignored(&rp("keepme"), false));
    // the same bad line in a second file is rejected too, leaving the
    // first file's rules untouched
    let res = ig.ignore_file_modified(&rp("sub/.gitignore"), vec!["\\".to_string()]);
    assert!(res.is_err());
    assert!(ig.is_ignored(&rp("keepme"), false));
    assert!(!ig.is_ignored(&rp("other"), false));
}

#[test]
fn rerecording_unchanged_file_changes_nothing() {
    let mut ig = Ignore::new();
    ig.ignore_file_modified(&rp(".ignore"), lines("foobar\n")).unwrap();
    ig.ignore_file_modified(&rp(".ignore"), lines("foobar\n")).unwrap();
    assert!(ig.is_ignored(&rp("foobar"), false));
    assert!(!ig.is_ignored(&rp("elsewhere"), false));
}

#[test]
fn removing_unknown_file_is_noop() {
    let mut ig = Ignore::new();
    ig.ignore_file_modified(&rp(".ignore"), lines("a\n")).unwrap();
    ig.ignore_file_removed(&rp("sub/.ignore")).unwrap();
    assert!(ig.is_ignored(&rp("a"), false));
}

#[test]
fn layered_ignore_files_combine() {
    let mut ig = Ignore::new();
    ig.ignore_file_modified(&rp(".gitignore"), lines("target\n")).unwrap();
    ig.ignore_file_modified(&rp(".ignore"), lines("scratch\n")).unwrap();
    assert!(ig.is_ignored(&rp("target"), true));
    assert!(ig.is_ignored(&rp("scratch"), false));
    assert!(!ig.is_ignored(&rp("kept"), false));
}

#[test]
fn watch_decisions_respect_ignore_rules() {
    let mut ig = Ignore::new();
    ig.ignore_file_modified(&rp(".ignore"), lines("skipme\n")).unwrap();
    // a tracked file's write is read back; an ignored one is dropped
    let (acts, reload) = watch_decision(&ig, &WatchEvent::WriteFile(rp("kept")));
    assert!(!reload);
    assert!(matches!(acts.as_slice(), [WatchAction::ReadFile(p)] if p.as_str() == "kept"));
    let (acts, _) = watch_decision(&ig, &WatchEvent::WriteFile(rp("skipme")));
    assert!(acts.is_empty());
    // touching an ignore file itself asks for a rescan
    let (_, reload) = watch_decision(&ig, &WatchEvent::WriteFile(rp(".ignore")));
    assert!(reload);
    // a rename out of the ignored set looks like a creation
    let (acts, _) = watch_decision(&ig, &WatchEvent::Rename(rp("skipme"), rp("shown"), false));
    assert!(matches!(acts.as_slice(), [WatchAction::ReadFile(p)] if p.as_str() == "shown"));
    // and into it, like a deletion
    let (acts, _) = watch_decision(&ig, &WatchEvent::Rename(rp("shown"), rp("skipme"), false));
    assert!(matches!(acts.as_slice(), [WatchAction::EmitDel(p)] if p.as_str() == "shown"));
    // an ordinary rename moves
    let (acts, _) = watch_decision(&ig, &WatchEvent::Rename(rp("a"), rp("b"), false));
    assert!(matches!(acts.as_slice(), [WatchAction::EmitMove(f, t)]
        if f.as_str() == "a" && t.as_str() == "b"));
    let (acts, _) = watch_decision(&ig, &WatchEvent::CreateDir(rp("d")));
    assert!(matches!(acts.as_slice(), [WatchAction::EmitDir(_)]));
    let (acts, _) = watch_decision(&ig, &WatchEvent::Remove(rp("kept")));
    assert!(matches!(acts.as_slice(), [WatchAction::EmitDel(_)]));
    let (acts, _) = watch_decision(&ig, &WatchEvent::Chmod(rp("kept")));
    assert!(matches!(acts.as_slice(), [WatchAction::ReadPerm(_)]));
}
