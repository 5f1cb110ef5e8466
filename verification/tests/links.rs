use rustybrain_core::links::extract_links;

#[test]
fn single_link() {
    assert_eq!(extract_links("see [Other note](other.md) for more"), vec!["other.md"]);
}

#[test]
fn several_links_in_order() {
    let r = extract_links("[a](x.md) then [b](y.md) then [c](z.md)");
    assert_eq!(r, vec!["x.md", "y.md", "z.md"]);
}

#[test]
fn duplicates_collapse() {
    let r = extract_links("[a](x.md) and again [b](x.md)");
    assert_eq!(r, vec!["x.md"]);
}

#[test]
fn no_links_is_valid_and_common() {
    assert!(extract_links("plain text, no references").is_empty());
    assert!(extract_links("").is_empty());
}

#[test]
fn malformed_brackets_ignored() {
    assert!(extract_links("unbalanced [ bracket").is_empty());
    assert!(extract_links("no target [title]").is_empty());
    assert!(extract_links("gap between ] (x.md)").is_empty());
    assert!(extract_links("unclosed [t](x.md").is_empty());
    assert!(extract_links("] before [ any open").is_empty());
}

#[test]
fn bracket_inside_title_still_matches() {
    assert_eq!(extract_links("[outer [inner](x.md)"), vec!["x.md"]);
}

#[test]
fn empty_identity_collected() {
    assert_eq!(extract_links("[t]()"), vec![""]);
}

#[test]
fn reset_after_close_bracket() {
    // the ] without an open [ after the first match does not link
    assert_eq!(extract_links("[a](x.md) stray ](y.md)"), vec!["x.md"]);
}

#[test]
fn inserted_reference_registers_as_link() {
    let text = rustybrain_core::links::link_text("Other note", "other.md");
    assert_eq!(text, "[Other note](other.md)");
    assert_eq!(extract_links(&text), vec!["other.md"]);
}
