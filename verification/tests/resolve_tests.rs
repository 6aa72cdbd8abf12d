use vaultlinks::fsmodel::FsEntry;
use vaultlinks::resolve::resolve_wiki_link;

fn file(name: &str) -> FsEntry {
    FsEntry::File { name: name.to_string(), modified: 0, content: String::new() }
}

fn dir(name: &str, entries: Vec<FsEntry>) -> FsEntry {
    FsEntry::Dir { name: name.to_string(), modified: 0, entries }
}

fn resolve(entries: &Vec<FsEntry>, target: &str) -> Option<String> {
    let r = resolve_wiki_link(&"/v".to_string(), entries, &target.to_string());
    assert!(r.success);
    assert!(r.error.is_none());
    r.data.unwrap()
}

#[test]
fn exact_root_match_precedes_search() {
    let entries = vec![dir("sub", vec![file("Note.md")]), file("Note.md")];
    assert_eq!(resolve(&entries, "Note"), Some("/v/Note.md".to_string()));
}

#[test]
fn folder_qualified_match_precedes_root() {
    let entries = vec![file("Note.md"), dir("sub", vec![file("Note.md")])];
    assert_eq!(resolve(&entries, "sub/Note"), Some("/v/sub/Note.md".to_string()));
}

#[test]
fn nested_folder_qualified() {
    let entries = vec![dir("a", vec![dir("b", vec![file("N.md")])])];
    assert_eq!(resolve(&entries, "a/b/N"), Some("/v/a/b/N.md".to_string()));
}

#[test]
fn fallback_search_is_case_insensitive() {
    let entries = vec![dir("a", vec![file("Note.md")])];
    assert_eq!(resolve(&entries, "note"), Some("/v/a/Note.md".to_string()));
}

#[test]
fn missing_note_is_none() {
    let entries = vec![file("Other.md")];
    assert_eq!(resolve(&entries, "Nope"), None);
    let empty: Vec<FsEntry> = vec![];
    assert_eq!(resolve(&empty, "Anything"), None);
}

#[test]
fn hidden_entries_skipped_in_search() {
    let entries = vec![dir(".hidden", vec![file("Secret.md")]), file(".Top.md")];
    assert_eq!(resolve(&entries, "secret"), None);
    assert_eq!(resolve(&entries, "top"), None);
    // but the exact root check is a literal lookup
    assert_eq!(resolve(&entries, ".Top"), Some("/v/.Top.md".to_string()));
}

#[test]
fn first_hit_in_traversal_order_wins() {
    let entries = vec![
        dir("one", vec![file("N.md")]),
        dir("two", vec![file("n.md")]),
    ];
    assert_eq!(resolve(&entries, "n"), Some("/v/one/N.md".to_string()));
}

#[test]
fn blank_targets_are_never_found() {
    // even a root entry literally named `.md` is not a hit for a blank name
    let entries = vec![file(".md"), dir("sub", vec![file(".md")])];
    assert_eq!(resolve(&entries, ""), None);
    assert_eq!(resolve(&entries, "   "), None);
    assert_eq!(resolve(&entries, "sub/"), None);
    assert_eq!(resolve(&entries, "/"), None);
}

#[test]
fn folder_prefix_must_exist() {
    let entries = vec![dir("sub", vec![file("Note.md")])];
    // no such folder: the root check fails too, then the search finds it
    assert_eq!(resolve(&entries, "other/Note"), Some("/v/sub/Note.md".to_string()));
}
