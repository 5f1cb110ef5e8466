use rustybrain_core::kasten::{normalize_identity, FileEntry, Kasten};
use rustybrain_core::zettel::{Zettel, ZettelError};

fn entry(path: &str, text: &str) -> FileEntry {
    FileEntry { path: path.to_string(), text: Some(text.to_string()) }
}

fn note(path: &str, title: &str, body: &str) -> Zettel {
    let text = format!("+++\ntitle = \"{}\"\n+++\n{}", title, body);
    Zettel::from_text(path, &text).unwrap()
}

#[test]
fn one_bad_note_never_hides_the_others() {
    let k = Kasten::new("/notes");
    let entries = vec![
        entry("good.md", "+++\ntitle = \"Good\"\n+++\nfine"),
        entry("bad.md", "+++\ntitle = \"Bad\"\nnever closed"),
    ];
    let r = k.open_all(&entries);
    assert_eq!(r.len(), 2);
    assert!(r[0].is_ok());
    assert!(matches!(r[1], Err(ZettelError::MalformedHeader(_))));
    let good: Vec<&Zettel> = r.iter().filter_map(|x| x.as_ref().ok()).collect();
    assert_eq!(good.len(), 1);
    assert_eq!(good[0].title(), "Good");
}

#[test]
fn unreadable_file_yields_io_error_element() {
    let k = Kasten::new("/notes");
    let entries = vec![
        FileEntry { path: "gone.md".to_string(), text: None },
        entry("ok.md", "body"),
    ];
    let r = k.open_all(&entries);
    assert!(matches!(r[0], Err(ZettelError::Io)));
    assert!(r[1].is_ok());
}

#[test]
fn search_title_is_case_insensitive_substring() {
    let k = Kasten::new("/notes");
    let notes = vec![
        Ok(note("a.md", "Second Brain", "")),
        Ok(note("b.md", "Brainstorm", "")),
        Ok(note("c.md", "Notes", "")),
    ];
    let ids = k.search_title("brain", &notes).unwrap();
    assert_eq!(ids, vec!["a.md", "b.md"]);
}

#[test]
fn search_title_reports_skipped_notes_with_partial_result() {
    let k = Kasten::new("/notes");
    let notes = vec![
        Ok(note("a.md", "Second Brain", "")),
        Err(ZettelError::Io),
        Ok(note("c.md", "Brainstorm", "")),
    ];
    let f = k.search_title("brain", &notes).unwrap_err();
    assert_eq!(f.skipped, 1);
    assert_eq!(f.matched, vec!["a.md", "c.md"]);
}

#[test]
fn backlinks_need_the_index_built_first() {
    let mut k = Kasten::new("/notes");
    assert!(!k.index_built());
    assert!(k.backlinks("a.md").is_none());
    k.build_index(&vec![]);
    assert!(k.index_built());
    assert_eq!(k.backlinks("a.md").unwrap(), Vec::<String>::new());
}

#[test]
fn backlinks_mirror_outgoing_links() {
    let mut k = Kasten::new("/notes");
    let notes = vec![
        note("a.md", "A", "links to [b](b.md) and [c](c.md)"),
        note("b.md", "B", "links to [c](c.md)"),
        note("c.md", "C", "no links"),
    ];
    k.build_index(&notes);
    assert_eq!(k.backlinks("c.md").unwrap(), vec!["a.md", "b.md"]);
    assert_eq!(k.backlinks("b.md").unwrap(), vec!["a.md"]);
    assert_eq!(k.backlinks("a.md").unwrap(), Vec::<String>::new());
}

#[test]
fn saving_without_the_link_removes_the_backlink() {
    let mut k = Kasten::new("/notes");
    let mut z = note("n.md", "N", "points at [x](b)");
    k.build_index(&vec![Zettel::from_text("n.md", &z.save()).unwrap()]);
    assert_eq!(k.backlinks("b").unwrap(), vec!["n.md"]);
    z.set_content("no more links");
    let _written = z.save();
    k.note_saved(&z);
    assert_eq!(k.backlinks("b").unwrap(), Vec::<String>::new());
}

#[test]
fn saving_a_new_link_adds_the_backlink() {
    let mut k = Kasten::new("/notes");
    k.build_index(&vec![note("n.md", "N", "nothing yet")]);
    assert_eq!(k.backlinks("t.md").unwrap(), Vec::<String>::new());
    let mut z = note("n.md", "N", "nothing yet");
    z.set_content("now [t](t.md)");
    k.note_saved(&z);
    assert_eq!(k.backlinks("t.md").unwrap(), vec!["n.md"]);
}

#[test]
fn note_saved_before_index_built_keeps_index_absent() {
    let mut k = Kasten::new("/notes");
    let z = note("n.md", "N", "[t](t.md)");
    k.note_saved(&z);
    assert!(!k.index_built());
}

#[test]
fn full_path_joins_root_and_identity() {
    let k = Kasten::new("/home/u/notes");
    assert_eq!(k.full_path("daily/today.md"), "/home/u/notes/daily/today.md");
    assert_eq!(k.root(), "/home/u/notes");
}

#[test]
fn identities_normalize_to_forward_slashes() {
    assert_eq!(normalize_identity("daily\\today.md"), "daily/today.md");
    assert_eq!(normalize_identity("plain.md"), "plain.md");
}
