use vaultlinks::backlinks::get_backlinks;
use vaultlinks::fsmodel::FsEntry;

fn note(name: &str, content: &str) -> FsEntry {
    FsEntry::File { name: name.to_string(), modified: 0, content: content.to_string() }
}

fn dir(name: &str, entries: Vec<FsEntry>) -> FsEntry {
    FsEntry::Dir { name: name.to_string(), modified: 0, entries }
}

fn backlinks(entries: &Vec<FsEntry>, name: &str) -> Vec<vaultlinks::backlinks::BacklinkInfo> {
    let r = get_backlinks(&"/v".to_string(), entries, &name.to_string());
    assert!(r.success);
    r.data.unwrap()
}

#[test]
fn self_reference_is_excluded() {
    let entries = vec![note("A.md", "see [[A]]")];
    assert_eq!(backlinks(&entries, "A").len(), 0);
}

#[test]
fn self_exclusion_is_case_insensitive() {
    let entries = vec![note("alpha.md", "[[Alpha]]")];
    assert_eq!(backlinks(&entries, "Alpha").len(), 0);
}

#[test]
fn folder_qualified_target_counts() {
    let entries = vec![note("B.md", "see [[Projects/Alpha]]")];
    let g = backlinks(&entries, "Alpha");
    assert_eq!(g.len(), 1);
    assert_eq!(g[0].source_name, "B");
    assert_eq!(g[0].source_path, "/v/B.md");
    assert_eq!(g[0].links.len(), 1);
    assert_eq!(g[0].links[0].target, "Projects/Alpha");
}

#[test]
fn match_is_case_insensitive() {
    let entries = vec![note("B.md", "[[alpha]] and [[ALPHA#head]]")];
    let g = backlinks(&entries, "Alpha");
    assert_eq!(g.len(), 1);
    assert_eq!(g[0].links.len(), 2);
}

#[test]
fn files_without_matches_are_omitted() {
    let entries = vec![note("B.md", "[[Other]]"), note("C.md", "[[Alpha]]")];
    let g = backlinks(&entries, "Alpha");
    assert_eq!(g.len(), 1);
    assert_eq!(g[0].source_name, "C");
}

#[test]
fn hidden_sources_are_skipped() {
    let entries = vec![
        note(".B.md", "[[Alpha]]"),
        dir(".d", vec![note("C.md", "[[Alpha]]")]),
    ];
    assert_eq!(backlinks(&entries, "Alpha").len(), 0);
}

#[test]
fn traversal_descends_into_folders() {
    let entries = vec![dir("sub", vec![note("C.md", "x [[Alpha]] y")]), note("D.md", "[[Alpha|shown]]")];
    let g = backlinks(&entries, "Alpha");
    assert_eq!(g.len(), 2);
    assert_eq!(g[0].source_path, "/v/sub/C.md");
    assert_eq!(g[1].source_path, "/v/D.md");
    assert_eq!(g[1].links[0].display_text.as_deref(), Some("shown"));
}

#[test]
fn missing_vault_has_no_backlinks() {
    let empty: Vec<FsEntry> = vec![];
    assert_eq!(backlinks(&empty, "A").len(), 0);
}
