use vaultlinks::fsmodel::FsEntry;
use vaultlinks::tree::{count_tree_folders, count_tree_notes, list_file_tree, FileTreeNode};

fn file(name: &str, modified: u64) -> FsEntry {
    FsEntry::File { name: name.to_string(), modified, content: String::new() }
}

fn dir(name: &str, modified: u64, entries: Vec<FsEntry>) -> FsEntry {
    FsEntry::Dir { name: name.to_string(), modified, entries }
}

fn tree(entries: &Vec<FsEntry>) -> vaultlinks::tree::FileTree {
    let r = list_file_tree(&"/v".to_string(), entries);
    assert!(r.success);
    r.data.unwrap()
}

fn node_name(n: &FileTreeNode) -> &str {
    match n {
        FileTreeNode::Folder { name, .. } => name,
        FileTreeNode::Note { name, .. } => name,
    }
}

#[test]
fn folders_precede_notes_and_groups_are_sorted() {
    let entries = vec![file("b.md", 1), file("a.md", 2), dir("Z", 3, vec![])];
    let ft = tree(&entries);
    assert_eq!(ft.root.len(), 3);
    assert!(matches!(ft.root[0], FileTreeNode::Folder { .. }));
    assert_eq!(node_name(&ft.root[0]), "Z");
    assert!(matches!(ft.root[1], FileTreeNode::Note { .. }));
    assert_eq!(node_name(&ft.root[1]), "a");
    assert_eq!(node_name(&ft.root[2]), "b");
}

#[test]
fn totals_match_recursive_counts() {
    let entries = vec![
        dir("p", 0, vec![file("x.md", 0), dir("q", 0, vec![file("y.md", 0)])]),
        file("top.md", 0),
        file("not-a-note.txt", 0),
    ];
    let ft = tree(&entries);
    assert_eq!(ft.total_notes, 3);
    assert_eq!(ft.total_folders, 2);
    assert_eq!(ft.total_notes, count_tree_notes(&ft.root));
    assert_eq!(ft.total_folders, count_tree_folders(&ft.root));
}

#[test]
fn hidden_entries_never_appear() {
    let entries = vec![
        file(".hidden.md", 0),
        dir(".git", 0, vec![file("x.md", 0)]),
        file("seen.md", 0),
    ];
    let ft = tree(&entries);
    assert_eq!(ft.root.len(), 1);
    assert_eq!(node_name(&ft.root[0]), "seen");
    assert_eq!(ft.total_notes, 1);
    assert_eq!(ft.total_folders, 0);
}

#[test]
fn paths_and_times_are_carried() {
    let entries = vec![dir("sub", 7, vec![file("n.md", 9)])];
    let ft = tree(&entries);
    assert_eq!(ft.vault_path, "/v");
    match &ft.root[0] {
        FileTreeNode::Folder { name, path, modified, children } => {
            assert_eq!(name, "sub");
            assert_eq!(path, "sub");
            assert_eq!(*modified, 7);
            match &children[0] {
                FileTreeNode::Note { name, path, relative_path, modified } => {
                    assert_eq!(name, "n");
                    assert_eq!(path, "/v/sub/n.md");
                    assert_eq!(relative_path, "sub/n.md");
                    assert_eq!(*modified, 9);
                },
                _ => panic!("expected a note"),
            }
        },
        _ => panic!("expected a folder"),
    }
}

#[test]
fn empty_vault_gives_empty_tree() {
    let empty: Vec<FsEntry> = vec![];
    let ft = tree(&empty);
    assert_eq!(ft.root.len(), 0);
    assert_eq!(ft.total_notes, 0);
    assert_eq!(ft.total_folders, 0);
}

#[test]
fn non_markdown_files_are_left_out() {
    let entries = vec![file("a.txt", 0), file("b.markdown", 0), file("c.md", 0)];
    let ft = tree(&entries);
    assert_eq!(ft.root.len(), 1);
    assert_eq!(node_name(&ft.root[0]), "c");
}
