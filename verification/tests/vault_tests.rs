use vaultlinks::fsmodel::FsEntry;
use vaultlinks::theme::{
    default_danger_hover, default_primary_hover, find_theme_by_name, theme_file_stem,
    theme_name_valid, Theme, ThemeAccentColors, ThemeBackgroundColors, ThemeBorderColors,
    ThemeColors, ThemeEditorColors, ThemeSyntaxColors, ThemeTextColors,
};
use vaultlinks::vault::{
    count_notes, count_notes_recursive, get_vault_name, sort_notes_by_modified, FsResult, NoteMeta,
};

fn file(name: &str) -> FsEntry {
    FsEntry::File { name: name.to_string(), modified: 0, content: String::new() }
}

fn dir(name: &str, entries: Vec<FsEntry>) -> FsEntry {
    FsEntry::Dir { name: name.to_string(), modified: 0, entries }
}

#[test]
fn ok_wraps_data() {
    let r: FsResult<u32> = FsResult::ok(7);
    assert!(r.success);
    assert_eq!(r.data, Some(7));
    assert_eq!(r.error, None);
}

#[test]
fn err_wraps_message() {
    let r: FsResult<u32> = FsResult::err("boom");
    assert!(!r.success);
    assert_eq!(r.data, None);
    assert_eq!(r.error.as_deref(), Some("boom"));
}

#[test]
fn vault_name_is_last_segment() {
    assert_eq!(get_vault_name("/home/u/MyVault"), "MyVault");
    assert_eq!(get_vault_name("/home/u/MyVault/"), "MyVault");
    assert_eq!(get_vault_name("plain"), "plain");
}

#[test]
fn vault_name_falls_back() {
    assert_eq!(get_vault_name(""), "Vault");
    assert_eq!(get_vault_name("/"), "Vault");
    assert_eq!(get_vault_name("/a/.."), "Vault");
}

#[test]
fn vault_name_skips_dot_segments() {
    assert_eq!(get_vault_name("a/."), "a");
    assert_eq!(get_vault_name("a/./"), "a");
    assert_eq!(get_vault_name("a/././"), "a");
    assert_eq!(get_vault_name("."), "Vault");
    assert_eq!(get_vault_name("./"), "Vault");
}

#[test]
fn notes_sort_newest_first() {
    let meta = |name: &str, modified: u64| NoteMeta {
        name: name.to_string(),
        path: format!("/v/{}.md", name),
        modified,
    };
    let mut notes = vec![meta("a", 5), meta("b", 9), meta("c", 7), meta("d", 9)];
    sort_notes_by_modified(&mut notes);
    let order: Vec<&str> = notes.iter().map(|n| n.name.as_str()).collect();
    // stable: b precedes d at the shared time
    assert_eq!(order, vec!["b", "d", "c", "a"]);
}

#[test]
fn count_notes_is_shallow() {
    let entries = vec![file("a.md"), file("b.txt"), dir("d", vec![file("c.md")]), file("d.md")];
    assert_eq!(count_notes(&entries), 2);
}

#[test]
fn count_notes_recursive_descends() {
    let entries = vec![
        file("a.md"),
        dir("d", vec![file("c.md"), dir("e", vec![file("f.md"), file("g.txt")])]),
    ];
    assert_eq!(count_notes_recursive(&entries), 3);
}

fn sample_theme(name: &str) -> Theme {
    let c = |s: &str| s.to_string();
    Theme {
        name: name.to_string(),
        version: c("1"),
        author: c("me"),
        colors: ThemeColors {
            background: ThemeBackgroundColors { primary: c("#fff"), secondary: c("#eee"), tertiary: c("#ddd") },
            text: ThemeTextColors { primary: c("#000"), secondary: c("#111"), muted: c("#222") },
            border: ThemeBorderColors { default: c("#333"), focus: c("#444") },
            accent: ThemeAccentColors {
                primary: c("#3b82f6"),
                primary_hover: default_primary_hover(),
                danger: c("#ef4444"),
                danger_hover: default_danger_hover(),
                success: c("#22c55e"),
                warning: c("#f59e0b"),
            },
            editor: ThemeEditorColors { background: c("#fff"), gutter: c("#eee"), cursor: c("#000"), selection: c("#ccc"), placeholder: c("#999") },
            syntax_highlighting: ThemeSyntaxColors {
                heading1: c("#a"), heading2: c("#b"), heading3: c("#c"), heading4: c("#d"),
                link: c("#e"), code: c("#f"), code_bg: c("#1"), quote: c("#2"), quote_bg: c("#3"), hr: c("#4"),
            },
            unsaved_dot: c("#f00"),
        },
    }
}

#[test]
fn default_hover_colors() {
    assert_eq!(default_primary_hover(), "#2563eb");
    assert_eq!(default_danger_hover(), "#dc2626");
}

#[test]
fn theme_validity_requires_a_name() {
    assert!(theme_name_valid(&sample_theme("Dark")));
    assert!(!theme_name_valid(&sample_theme("")));
}

#[test]
fn theme_file_stem_is_file_safe() {
    assert_eq!(theme_file_stem("My Theme!"), "My-Theme-");
    assert_eq!(theme_file_stem("ok-name_2"), "ok-name_2");
    assert_eq!(theme_file_stem("a/b\\c"), "a-b-c");
}

#[test]
fn find_theme_by_name_finds_first() {
    let themes = vec![sample_theme("A"), sample_theme("B"), sample_theme("B")];
    assert_eq!(find_theme_by_name(&themes, &"B".to_string()), Some(1));
    assert_eq!(find_theme_by_name(&themes, &"C".to_string()), None);
}
