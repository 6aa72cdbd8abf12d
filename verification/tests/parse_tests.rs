use vaultlinks::links::{parse_links, parse_wiki_links};

#[test]
fn single_target() {
    let r = parse_links("[[Foo]]".to_string());
    assert_eq!(r.links.len(), 1);
    let l = &r.links[0];
    assert_eq!(l.target, "Foo");
    assert_eq!(l.heading, None);
    assert_eq!(l.display_text, None);
    assert_eq!(l.start, 0);
    assert_eq!(l.end, 7);
    assert_eq!(l.raw, "[[Foo]]");
    assert_eq!(r.referenced_notes, vec!["Foo".to_string()]);
}

#[test]
fn target_heading_display() {
    let r = parse_links("[[Foo#Bar|Baz]]".to_string());
    assert_eq!(r.links.len(), 1);
    let l = &r.links[0];
    assert_eq!(l.target, "Foo");
    assert_eq!(l.heading.as_deref(), Some("Bar"));
    assert_eq!(l.display_text.as_deref(), Some("Baz"));
    assert_eq!(l.raw, "[[Foo#Bar|Baz]]");
}

#[test]
fn target_heading_only() {
    let r = parse_links("x [[Note#Section]] y".to_string());
    assert_eq!(r.links.len(), 1);
    assert_eq!(r.links[0].target, "Note");
    assert_eq!(r.links[0].heading.as_deref(), Some("Section"));
    assert_eq!(r.links[0].display_text, None);
}

#[test]
fn target_display_only() {
    let r = parse_links("[[Note|Shown]]".to_string());
    assert_eq!(r.links.len(), 1);
    assert_eq!(r.links[0].target, "Note");
    assert_eq!(r.links[0].heading, None);
    assert_eq!(r.links[0].display_text.as_deref(), Some("Shown"));
}

#[test]
fn empty_trimmed_target_dropped() {
    let r = parse_links("[[ ]]".to_string());
    assert_eq!(r.links.len(), 0);
    assert_eq!(r.referenced_notes.len(), 0);
}

#[test]
fn captures_are_trimmed() {
    let r = parse_links("[[ Foo#Bar | Baz ]]".to_string());
    assert_eq!(r.links.len(), 1);
    let l = &r.links[0];
    assert_eq!(l.target, "Foo");
    assert_eq!(l.heading.as_deref(), Some("Bar"));
    assert_eq!(l.display_text.as_deref(), Some("Baz"));
}

#[test]
fn raw_equals_byte_span() {
    let t = "héllo [[Foo]] — [[Bär#Köpfe|Änzeige]] end";
    let links = parse_wiki_links(t);
    assert_eq!(links.len(), 2);
    for l in &links {
        assert!(l.start < l.end);
        assert!(l.end <= t.len());
        assert_eq!(&t[l.start..l.end], l.raw);
    }
    assert_eq!(links[0].target, "Foo");
    assert_eq!(links[1].target, "Bär");
    assert_eq!(links[1].heading.as_deref(), Some("Köpfe"));
    assert_eq!(links[1].display_text.as_deref(), Some("Änzeige"));
}

#[test]
fn non_overlapping_left_to_right() {
    let t = "[[A]][[B]]";
    let links = parse_wiki_links(t);
    assert_eq!(links.len(), 2);
    assert_eq!(links[0].target, "A");
    assert_eq!(links[1].target, "B");
    assert_eq!((links[0].start, links[0].end), (0, 5));
    assert_eq!((links[1].start, links[1].end), (5, 10));
}

#[test]
fn unclosed_and_malformed_yield_nothing() {
    assert_eq!(parse_wiki_links("[[A").len(), 0);
    assert_eq!(parse_wiki_links("[[A]").len(), 0);
    assert_eq!(parse_wiki_links("[[A#]]").len(), 0);
    assert_eq!(parse_wiki_links("[[A|]]").len(), 0);
    assert_eq!(parse_wiki_links("A]] [[").len(), 0);
    assert_eq!(parse_wiki_links("").len(), 0);
}

#[test]
fn target_may_contain_open_brackets() {
    let links = parse_wiki_links("[[a[[b]]");
    assert_eq!(links.len(), 1);
    assert_eq!(links[0].target, "a[[b");
    assert_eq!(links[0].raw, "[[a[[b]]");
}

#[test]
fn heading_may_contain_hash() {
    let links = parse_wiki_links("[[a#b#c]]");
    assert_eq!(links.len(), 1);
    assert_eq!(links[0].target, "a");
    assert_eq!(links[0].heading.as_deref(), Some("b#c"));
}

#[test]
fn display_may_contain_pipe() {
    let links = parse_wiki_links("[[a|b|c]]");
    assert_eq!(links.len(), 1);
    assert_eq!(links[0].target, "a");
    assert_eq!(links[0].display_text.as_deref(), Some("b|c"));
}

#[test]
fn referenced_notes_deduplicated() {
    let r = parse_links("[[A]] [[A]] [[B]] [[a]]".to_string());
    assert_eq!(r.links.len(), 4);
    let mut rn = r.referenced_notes.clone();
    rn.sort();
    // deduplication is case-sensitive
    assert_eq!(rn, vec!["A".to_string(), "B".to_string(), "a".to_string()]);
}
