use rustybrain_core::zettel::{Zettel, ZettelError};

#[test]
fn load_reads_title_content_and_links() {
    let text = "+++\ntitle = \"First\"\n+++\nSee [Second](b.md).";
    let z = Zettel::from_text("a.md", text).unwrap();
    assert_eq!(z.path(), "a.md");
    assert_eq!(z.title(), "First");
    assert_eq!(z.content(), "See [Second](b.md).");
    assert_eq!(z.contexts().as_slice(), ["b.md"]);
    assert!(!z.is_dirty());
}

#[test]
fn load_without_title_presents_empty_title() {
    let z = Zettel::from_text("a.md", "no front matter here").unwrap();
    assert_eq!(z.title(), "");
    assert_eq!(z.content(), "no front matter here");
}

#[test]
fn load_malformed_header_fails() {
    let e = Zettel::from_text("a.md", "+++\nnever closed").unwrap_err();
    assert!(matches!(e, ZettelError::MalformedHeader(_)));
}

#[test]
fn identity_is_stable_across_loads() {
    let text = "+++\ntitle = \"Same\"\n+++\nBody with [l](x.md).";
    let a = Zettel::from_text("n.md", text).unwrap();
    let b = Zettel::from_text("n.md", text).unwrap();
    assert_eq!(a.path(), b.path());
    assert_eq!(a.title(), b.title());
    assert_eq!(a.content(), b.content());
    assert_eq!(a.contexts().as_slice(), b.contexts().as_slice());
}

#[test]
fn setters_mark_dirty_and_keep_identity() {
    let mut z = Zettel::from_text("a.md", "+++\ntitle = \"Old\"\n+++\nold body").unwrap();
    z.set_title("New");
    assert!(z.is_dirty());
    assert_eq!(z.title(), "New");
    assert_eq!(z.path(), "a.md");
    z.set_content("now links to [x](b.md)");
    assert_eq!(z.content(), "now links to [x](b.md)");
    assert_eq!(z.contexts().as_slice(), ["b.md"]);
    assert_eq!(z.path(), "a.md");
}

#[test]
fn save_encodes_and_loads_back_unchanged() {
    let mut z = Zettel::new("fresh.md");
    assert!(z.is_dirty());
    z.set_title("Fresh");
    z.set_content("points at [a](a.md) and [b](b.md)");
    let text = z.save();
    let back = Zettel::from_text("fresh.md", &text).unwrap();
    assert_eq!(back.title(), "Fresh");
    assert_eq!(back.content(), "points at [a](a.md) and [b](b.md)");
    assert_eq!(back.contexts().as_slice(), ["a.md", "b.md"]);
}

#[test]
fn save_keeps_unknown_metadata() {
    let text = "+++\ntitle = \"T\"\ncreated = \"yesterday\"\n+++\nbody";
    let z = Zettel::from_text("a.md", text).unwrap();
    let again = Zettel::from_text("a.md", &z.save()).unwrap();
    assert_eq!(again.header().extra.len(), 1);
    assert_eq!(again.header().extra[0].key, "created");
    assert_eq!(again.header().extra[0].value, "yesterday");
}

#[test]
fn links_to_queries_current_body() {
    let z = Zettel::from_text("a.md", "+++\ntitle = \"T\"\n+++\n[x](b.md)").unwrap();
    assert!(z.links_to("b.md"));
    assert!(!z.links_to("c.md"));
}

#[test]
fn new_note_is_empty() {
    let z = Zettel::new("new.md");
    assert_eq!(z.path(), "new.md");
    assert_eq!(z.title(), "");
    assert_eq!(z.content(), "");
    assert!(z.contexts().is_empty());
}
