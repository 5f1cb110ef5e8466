//! Slip-box (Kasten): the authority over a directory of notes and the
//! derived queries on them.
//!
//! The caller walks the directory and reads and writes files; this module
//! owns everything decidable from plain values: decoding each file into a
//! note (one bad file yields one error element, never aborting the rest),
//! the backlink index and its patch-on-save rule, and the title search.

use vstd::prelude::*;

use crate::frontmatter::spec_decode;
use crate::links::{contains_str, links_of};
use crate::text::{chars_of, clone_strings, contains_chars, contains_sub, str_eq, string_of};
use crate::zettel::{zettel_wf, spec_title, Zettel, ZettelError, ZettelModel};

verus! {

/// One row of the backlink index: a note's identity and the identities its
/// body referenced when it was last scanned or saved.
pub struct IndexEntry {
    pub path: String,
    pub links: Vec<String>,
}

impl View for IndexEntry {
    type V = (Seq<char>, Seq<Seq<char>>);

    open spec fn view(&self) -> (Seq<char>, Seq<Seq<char>>) {
        (self.path@, self.links.deep_view())
    }
}

impl DeepView for IndexEntry {
    type V = (Seq<char>, Seq<Seq<char>>);

    open spec fn deep_view(&self) -> (Seq<char>, Seq<Seq<char>>) {
        self.view()
    }
}

/// Mathematical model of a slip-box: the root path and the index, absent
/// until first built.
pub struct KastenModel {
    pub root: Seq<char>,
    pub index: Option<Seq<(Seq<char>, Seq<Seq<char>>)>>,
}

/// Who links to `target`, according to the index rows: every identity that
/// owns a row whose link list holds `target`.
pub open spec fn spec_backlinks(
    idx: Seq<(Seq<char>, Seq<Seq<char>>)>,
    target: Seq<char>,
) -> Set<Seq<char>> {
    Set::new(
        |b: Seq<char>|
            exists|i: int| 0 <= i < idx.len() && (#[trigger] idx[i]).0 == b && idx[i].1.contains(
                target,
            ),
    )
}

/// The index rows a full scan of these notes produces.
pub open spec fn index_of_notes(notes: Seq<Zettel>) -> Seq<(Seq<char>, Seq<Seq<char>>)> {
    Seq::new(notes.len(), |i: int| (notes[i]@.path, notes[i]@.links))
}

/// An unreadable or well-read file handed in by the directory walk: the
/// identity (path relative to the root) and its text, or nothing when the
/// file could not be read.
pub struct FileEntry {
    pub path: String,
    pub text: Option<String>,
}

/// What loading one file must yield: exactly the decode of its text under
/// its identity, or the malformed-header error with the offending text.
pub open spec fn load_result_ok(
    path: Seq<char>,
    text: Seq<char>,
    r: Result<Zettel, ZettelError>,
) -> bool {
    match r {
        Ok(z) => {
            &&& spec_decode(text) == Ok::<(crate::frontmatter::MetaModel, Seq<char>), Seq<char>>(
                (z@.meta, z@.content),
            )
            &&& z@.path == path
            &&& zettel_wf(z@)
            &&& !z@.dirty
        },
        Err(e) => {
            &&& e matches ZettelError::MalformedHeader(l)
            &&& spec_decode(text) == Err::<(crate::frontmatter::MetaModel, Seq<char>), Seq<char>>(
                l@,
            )
        },
    }
}

/// How many of the walked files failed, counting the first `i`.
pub open spec fn err_count(s: Seq<Result<Zettel, ZettelError>>, i: int) -> int
    decreases i,
{
    if i <= 0 {
        0
    } else {
        err_count(s, i - 1) + if s[i - 1] is Err {
            1int
        } else {
            0int
        }
    }
}

/// A title search that had to skip unreadable or malformed notes: how many
/// were skipped, alongside the matches among the notes that could be read.
#[derive(Debug)]
pub struct SearchFailure {
    pub skipped: usize,
    pub matched: Vec<String>,
}

/// What `str::to_lowercase` returns for a given sequence of characters: a
/// function of the characters alone.
pub uninterp spec fn lower_of(s: Seq<char>) -> Seq<char>;

/// Relies on str::to_lowercase: the result depends on the input characters
/// alone, so equal inputs lower to equal outputs.
#[verifier::external_body]
fn to_lower(s: &str) -> (r: String)
    ensures
        r@ == lower_of(s@),
{
    s.to_lowercase()
}

/// Case-insensitive substring match of a query against a title.
pub open spec fn title_matches(query: Seq<char>, title: Seq<char>) -> bool {
    contains_sub(lower_of(title), lower_of(query))
}

/// Whether the lowered query occurs in the lowered title; the exact,
/// lowering-independent part of the title match.
pub fn lowered_matches(lowered_title: &str, lowered_query: &str) -> (r: bool)
    ensures
        r == contains_sub(lowered_title@, lowered_query@),
{
    let h = chars_of(lowered_title);
    let n = chars_of(lowered_query);
    contains_chars(&h, &n)
}

/// An identity with every backslash separator turned into the portable
/// forward slash.
pub open spec fn normalized_identity(s: Seq<char>) -> Seq<char> {
    Seq::new(s.len(), |i: int| if s[i] == '\\' { '/' } else { s[i] })
}

/// Normalizes a note identity: path separators become forward slashes, so
/// identities are stable across machines.
pub fn normalize_identity(s: &str) -> (r: String)
    ensures
        r@ == normalized_identity(s@),
{
    let v = chars_of(s);
    let mut out: Vec<char> = Vec::new();
    let mut i: usize = 0;
    while i < v.len()
        invariant
            i <= v@.len(),
            v@ == s@,
            out@ =~= normalized_identity(s@).subrange(0, i as int),
        decreases v@.len() - i,
    {
        if v[i] == '\\' {
            out.push('/');
        } else {
            out.push(v[i]);
        }
        proof {
            assert(out@ =~= normalized_identity(s@).subrange(0, i + 1));
        }
        i = i + 1;
    }
    proof {
        assert(normalized_identity(s@).subrange(0, s@.len() as int) =~= normalized_identity(s@));
    }
    string_of(&out)
}

pub struct Kasten {
    root: String,
    built: bool,
    index: Vec<IndexEntry>,
}

impl View for Kasten {
    type V = KastenModel;

    closed spec fn view(&self) -> KastenModel {
        KastenModel {
            root: self.root@,
            index: if self.built {
                Some(self.index.deep_view())
            } else {
                None
            },
        }
    }
}

impl Kasten {
    /// A slip-box over the given root directory; the index is absent until
    /// a full scan first builds it.
    pub fn new(root: &str) -> (r: Kasten)
        ensures
            r@.root == root@,
            r@.index is None,
    {
        Kasten { root: String::from_str(root), built: false, index: Vec::new() }
    }

    /// The root directory every note file lives under.
    pub fn root(&self) -> (r: &str)
        ensures
            r@ == self@.root,
    {
        self.root.as_str()
    }

    /// The path of a note's file: the root, a separator, the identity.
    pub fn full_path(&self, identity: &str) -> (r: String)
        ensures
            r@ == self@.root + seq!['/'] + identity@,
    {
        let mut v = chars_of(self.root.as_str());
        v.push('/');
        let rest = chars_of(identity);
        let mut i: usize = 0;
        while i < rest.len()
            invariant
                i <= rest@.len(),
                v@ == self@.root + seq!['/'] + rest@.subrange(0, i as int),
                rest@ == identity@,
            decreases rest@.len() - i,
        {
            v.push(rest[i]);
            i = i + 1;
            proof {
                assert(v@ =~= self@.root + seq!['/'] + rest@.subrange(0, i as int));
            }
        }
        proof {
            assert(rest@.subrange(0, rest@.len() as int) =~= rest@);
        }
        string_of(&v)
    }

    /// Whether the backlink index has been built.
    pub fn index_built(&self) -> (r: bool)
        ensures
            r == (self@.index is Some),
    {
        self.built
    }

    /// Decodes every file the directory walk found, one result per file in
    /// walk order: an unreadable file yields its error element and a
    /// malformed one its own, and neither disturbs any other element.
    pub fn open_all(&self, entries: &Vec<FileEntry>) -> (r: Vec<Result<Zettel, ZettelError>>)
        ensures
            r@.len() == entries@.len(),
            forall|i: int|
                0 <= i < entries@.len() ==> match (#[trigger] entries@[i]).text {
                    Some(t) => load_result_ok(entries@[i].path@, t@, r@[i]),
                    None => r@[i] matches Err(ZettelError::Io),
                },
    {
        let mut out: Vec<Result<Zettel, ZettelError>> = Vec::new();
        let mut i: usize = 0;
        while i < entries.len()
            invariant
                i <= entries@.len(),
                out@.len() == i,
                forall|m: int|
                    0 <= m < i ==> match (#[trigger] entries@[m]).text {
                        Some(t) => load_result_ok(entries@[m].path@, t@, out@[m]),
                        None => out@[m] matches Err(ZettelError::Io),
                    },
            decreases entries@.len() - i,
        {
            let e = &entries[i];
            match &e.text {
                Some(t) => {
                    out.push(Zettel::from_text(e.path.as_str(), t.as_str()));
                },
                None => {
                    out.push(Err(ZettelError::Io));
                },
            }
            i = i + 1;
        }
        out
    }

    /// Builds the backlink index from a full scan: one row per note, in
    /// scan order, holding the note's identity and its outgoing links.
    pub fn build_index(&mut self, notes: &Vec<Zettel>)
        ensures
            final(self)@.root == old(self)@.root,
            final(self)@.index == Some(index_of_notes(notes@)),
    {
        let mut rows: Vec<IndexEntry> = Vec::new();
        let mut i: usize = 0;
        while i < notes.len()
            invariant
                i <= notes@.len(),
                rows@.len() == i,
                rows.deep_view() =~= index_of_notes(notes@).subrange(0, i as int),
            decreases notes@.len() - i,
        {
            let z = &notes[i];
            rows.push(
                IndexEntry {
                    path: String::from_str(z.path()),
                    links: clone_strings(z.contexts()),
                },
            );
            proof {
                assert(rows@.len() == i + 1);
                assert(rows@[i as int].path@ == notes@[i as int]@.path);
                assert(rows@[i as int].links.deep_view() == notes@[i as int]@.links);
                assert(rows.deep_view()[i as int] == rows@[i as int].deep_view());
                assert(rows.deep_view()[i as int] == (notes@[i as int]@.path,
                notes@[i as int]@.links));
                assert(index_of_notes(notes@)[i as int] == (notes@[i as int]@.path,
                notes@[i as int]@.links));
                assert(rows.deep_view() =~= index_of_notes(notes@).subrange(0, i + 1));
            }
            i = i + 1;
        }
        proof {
            assert(index_of_notes(notes@).subrange(0, notes@.len() as int) =~= index_of_notes(
                notes@,
            ));
        }
        self.built = true;
        self.index = rows;
    }

    /// Patches the index after a successful save of `z`: every row of the
    /// note's identity is dropped and one fresh row with its current links
    /// takes their place. An absent index stays absent; it will be rebuilt
    /// on demand.
    pub fn note_saved(&mut self, z: &Zettel)
        ensures
            final(self)@.root == old(self)@.root,
            old(self)@.index is None ==> final(self)@.index is None,
            old(self)@.index matches Some(idx) ==> final(self)@.index matches Some(nidx)
                && (forall|e: (Seq<char>, Seq<Seq<char>>)| #[trigger]
                nidx.contains(e) <==> ((idx.contains(e) && e.0 != z@.path) || e == (
                z@.path,
                z@.links,
                ))),
    {
        if !self.built {
            return ;
        }
        let ghost idx = self.index.deep_view();
        let mut rows: Vec<IndexEntry> = Vec::new();
        let mut i: usize = 0;
        while i < self.index.len()
            invariant
                i <= self.index@.len(),
                idx == self.index.deep_view(),
                forall|x: int|
                    0 <= x < rows.deep_view().len() ==> idx.contains(
                        #[trigger] rows.deep_view()[x],
                    ) && rows.deep_view()[x].0 != z@.path,
                forall|m: int|
                    0 <= m < i && (#[trigger] idx[m]).0 != z@.path ==> rows.deep_view().contains(
                        idx[m],
                    ),
            decreases self.index@.len() - i,
        {
            let keep = !str_eq(self.index[i].path.as_str(), z.path());
            if keep {
                let ghost before = rows.deep_view();
                rows.push(
                    IndexEntry {
                        path: self.index[i].path.clone(),
                        links: clone_strings(&self.index[i].links),
                    },
                );
                proof {
                    assert(rows.deep_view() =~= before.push(idx[i as int]));
                    assert forall|m: int|
                        0 <= m < i + 1 && (#[trigger] idx[m]).0 != z@.path implies rows.deep_view()
                        .contains(idx[m]) by {
                        if m < i {
                            let w = choose|w: int|
                                0 <= w < before.len() && before[w] == idx[m];
                            assert(rows.deep_view()[w] == idx[m]);
                        } else {
                            assert(rows.deep_view().last() == idx[m]);
                        }
                    }
                }
            }
            i = i + 1;
        }
        let ghost kept = rows.deep_view();
        rows.push(
            IndexEntry { path: String::from_str(z.path()), links: clone_strings(z.contexts()) },
        );
        proof {
            assert(rows.deep_view() =~= kept.push((z@.path, z@.links)));
        }
        self.index = rows;
        proof {
            let nidx = self.index.deep_view();
            assert forall|e: (Seq<char>, Seq<Seq<char>>)| #[trigger]
                nidx.contains(e) implies ((idx.contains(e) && e.0 != z@.path) || e == (
                z@.path,
                z@.links,
            )) by {
                let w = choose|w: int| 0 <= w < nidx.len() && nidx[w] == e;
                if w < kept.len() {
                    assert(kept[w] == e);
                }
            }
            assert forall|e: (Seq<char>, Seq<Seq<char>>)|
                ((idx.contains(e) && e.0 != z@.path) || e == (z@.path, z@.links)) implies #[trigger]
                nidx.contains(e) by {
                if e == (z@.path, z@.links) {
                    assert(nidx.last() == e);
                } else {
                    let w = choose|w: int| 0 <= w < idx.len() && idx[w] == e;
                    assert(kept.contains(idx[w]));
                    let w2 = choose|w2: int| 0 <= w2 < kept.len() && kept[w2] == e;
                    assert(nidx[w2] == e);
                }
            }
        }
    }

    /// The identities of the notes whose last scanned or saved links hold
    /// `identity`, each once; absent while the index is unbuilt, so the
    /// caller scans and builds first.
    pub fn backlinks(&self, identity: &str) -> (r: Option<Vec<String>>)
        ensures
            r is Some <==> self@.index is Some,
            match r {
                Some(v) => {
                    &&& self@.index matches Some(idx)
                    &&& forall|b: Seq<char>|
                        spec_backlinks(idx, identity@).contains(b) <==> v.deep_view().contains(b)
                    &&& forall|x: int, y: int|
                        0 <= x < y < v.deep_view().len() ==> #[trigger] v.deep_view()[x]
                            != #[trigger] v.deep_view()[y]
                },
                None => true,
            },
    {
        if !self.built {
            return None;
        }
        let ghost idx = self.index.deep_view();
        let mut out: Vec<String> = Vec::new();
        let mut i: usize = 0;
        while i < self.index.len()
            invariant
                i <= self.index@.len(),
                idx == self.index.deep_view(),
                forall|x: int|
                    0 <= x < out.deep_view().len() ==> spec_backlinks(idx, identity@).contains(
                        #[trigger] out.deep_view()[x],
                    ),
                forall|m: int|
                    0 <= m < i && (#[trigger] idx[m]).1.contains(identity@)
                        ==> out.deep_view().contains(idx[m].0),
                forall|x: int, y: int|
                    0 <= x < y < out.deep_view().len() ==> #[trigger] out.deep_view()[x]
                        != #[trigger] out.deep_view()[y],
            decreases self.index@.len() - i,
        {
            let row = &self.index[i];
            if contains_str(&row.links, identity) {
                proof {
                    assert(idx[i as int].1.contains(identity@));
                    assert(spec_backlinks(idx, identity@).contains(idx[i as int].0));
                }
                if !contains_str(&out, row.path.as_str()) {
                    let ghost before = out.deep_view();
                    out.push(row.path.clone());
                    proof {
                        assert(out.deep_view() =~= before.push(idx[i as int].0));
                        assert forall|m: int|
                            0 <= m < i + 1 && (#[trigger] idx[m]).1.contains(identity@) implies out
                            .deep_view().contains(idx[m].0) by {
                            if m < i {
                                let w = choose|w: int|
                                    0 <= w < before.len() && before[w] == idx[m].0;
                                assert(out.deep_view()[w] == idx[m].0);
                            } else {
                                assert(out.deep_view().last() == idx[m].0);
                            }
                        }
                    }
                }
            }
            i = i + 1;
        }
        proof {
            assert forall|b: Seq<char>|
                spec_backlinks(idx, identity@).contains(b) implies out.deep_view().contains(
                b,
            ) by {
                let w = choose|w: int|
                    0 <= w < idx.len() && (#[trigger] idx[w]).0 == b && idx[w].1.contains(
                        identity@,
                    );
            }
        }
        Some(out)
    }

    /// Scans the walked notes for titles holding `query`, case-insensitive.
    /// When every note could be read the matches come back as such; when
    /// some could not, the result says how many were skipped alongside the
    /// matches among the readable ones — a bad file never hides the others.
    pub fn search_title(&self, query: &str, notes: &Vec<Result<Zettel, ZettelError>>) -> (r:
        Result<Vec<String>, SearchFailure>)
        ensures
            match r {
                Ok(ids) => err_count(notes@, notes@.len() as int) == 0 && search_matches(
                    notes@,
                    query@,
                    ids.deep_view(),
                ),
                Err(f) => err_count(notes@, notes@.len() as int) == f.skipped && f.skipped > 0
                    && search_matches(notes@, query@, f.matched.deep_view()),
            },
    {
        let lq = to_lower(query);
        let mut matched: Vec<String> = Vec::new();
        let mut skipped: usize = 0;
        let mut i: usize = 0;
        while i < notes.len()
            invariant
                i <= notes@.len(),
                skipped == err_count(notes@, i as int),
                skipped <= i,
                lq@ == lower_of(query@),
                forall|x: int|
                    0 <= x < matched.deep_view().len() ==> is_match(
                        notes@,
                        query@,
                        #[trigger] matched.deep_view()[x],
                    ),
                forall|m: int|
                    0 <= m < i ==> ((#[trigger] notes@[m]) matches Ok(z) ==> (title_matches(
                        query@,
                        spec_title(z@.meta),
                    ) ==> matched.deep_view().contains(z@.path))),
                forall|x: int, y: int|
                    0 <= x < y < matched.deep_view().len() ==> #[trigger] matched.deep_view()[x]
                        != #[trigger] matched.deep_view()[y],
            decreases notes@.len() - i,
        {
            match &notes[i] {
                Err(_) => {
                    skipped = skipped + 1;
                },
                Ok(z) => {
                    let lt = to_lower(z.title());
                    if lowered_matches(lt.as_str(), lq.as_str()) {
                        proof {
                            assert(is_match(notes@, query@, z@.path)) by {
                                assert(notes@[i as int] matches Ok(zz) && zz@.path == z@.path
                                    && title_matches(query@, spec_title(zz@.meta)));
                            }
                        }
                        if !contains_str(&matched, z.path()) {
                            let ghost before = matched.deep_view();
                            matched.push(String::from_str(z.path()));
                            proof {
                                assert(matched.deep_view() =~= before.push(z@.path));
                                assert forall|m: int|
                                    0 <= m < i + 1 implies ((#[trigger] notes@[m]) matches Ok(zz)
                                    ==> (title_matches(query@, spec_title(zz@.meta))
                                    ==> matched.deep_view().contains(zz@.path))) by {
                                    if m < i {
                                        if notes@[m] is Ok {
                                            let zz = notes@[m]->Ok_0;
                                            if title_matches(query@, spec_title(zz@.meta)) {
                                                let w = choose|w: int|
                                                    0 <= w < before.len() && before[w] == zz@.path;
                                                assert(matched.deep_view()[w] == zz@.path);
                                            }
                                        }
                                    } else {
                                        assert(matched.deep_view().last() == z@.path);
                                    }
                                }
                            }
                        }
                    }
                },
            }
            i = i + 1;
        }
        if skipped == 0 {
            Ok(matched)
        } else {
            Err(SearchFailure { skipped, matched })
        }
    }
}

/// Whether `p` is the identity of some readable note whose title matches.
pub open spec fn is_match(
    notes: Seq<Result<Zettel, ZettelError>>,
    query: Seq<char>,
    p: Seq<char>,
) -> bool {
    exists|i: int|
        0 <= i < notes.len() && ((#[trigger] notes[i]) matches Ok(z) && z@.path == p
            && title_matches(query, spec_title(z@.meta)))
}

/// The identities handed back by a title search: exactly those of readable
/// notes whose titles match, each once.
pub open spec fn search_matches(
    notes: Seq<Result<Zettel, ZettelError>>,
    query: Seq<char>,
    ids: Seq<Seq<char>>,
) -> bool {
    &&& forall|x: int| 0 <= x < ids.len() ==> is_match(notes, query, #[trigger] ids[x])
    &&& forall|x: int, y: int| 0 <= x < y < ids.len() ==> #[trigger] ids[x] != #[trigger] ids[y]
    &&& forall|i: int|
        0 <= i < notes.len() ==> ((#[trigger] notes[i]) matches Ok(z) ==> (title_matches(
            query,
            spec_title(z@.meta),
        ) ==> ids.contains(z@.path)))
}

// ---------------------------------------------------------------------------
// Laws of the backlink index
// ---------------------------------------------------------------------------

/// For all notes A (identity `a`) and B (identity `b`) of a scan: B is in
/// backlinks(A) under the freshly built index if and only if some scanned
/// note with identity B references A from its current body.
pub proof fn lemma_backlinks_iff(notes: Seq<Zettel>, a: Seq<char>, b: Seq<char>)
    requires
        forall|i: int| 0 <= i < notes.len() ==> zettel_wf((#[trigger] notes[i])@),
    ensures
        spec_backlinks(index_of_notes(notes), a).contains(b) <==> exists|i: int|
            0 <= i < notes.len() && (#[trigger] notes[i])@.path == b && links_of(
                notes[i]@.content,
            ).contains(a),
{
    let idx = index_of_notes(notes);
    if spec_backlinks(idx, a).contains(b) {
        let w = choose|w: int|
            0 <= w < idx.len() && (#[trigger] idx[w]).0 == b && idx[w].1.contains(a);
        assert(notes[w]@.path == b);
        assert(notes[w]@.links.contains(a));
        let x = choose|x: int| 0 <= x < notes[w]@.links.len() && notes[w]@.links[x] == a;
        assert(crate::links::is_link_of(notes[w]@.content, a));
        assert(links_of(notes[w]@.content).contains(a));
    }
    if exists|i: int|
        0 <= i < notes.len() && (#[trigger] notes[i])@.path == b && links_of(
            notes[i]@.content,
        ).contains(a) {
        let w = choose|w: int|
            0 <= w < notes.len() && (#[trigger] notes[w])@.path == b && links_of(
                notes[w]@.content,
            ).contains(a);
        assert(notes[w]@.links.contains(a));
        assert(idx[w].0 == b && idx[w].1.contains(a));
        assert(spec_backlinks(idx, a).contains(b));
    }
}

/// After a save is patched into the index, the saved note backlinks exactly
/// what its current body references, and every other note's contribution is
/// untouched. In particular, saving a note whose body no longer links to
/// `b` removes it from backlinks(`b`).
pub proof fn lemma_backlinks_after_save(
    idx: Seq<(Seq<char>, Seq<Seq<char>>)>,
    nidx: Seq<(Seq<char>, Seq<Seq<char>>)>,
    z: ZettelModel,
    t: Seq<char>,
)
    requires
        zettel_wf(z),
        forall|e: (Seq<char>, Seq<Seq<char>>)| #[trigger]
            nidx.contains(e) <==> ((idx.contains(e) && e.0 != z.path) || e == (z.path, z.links)),
    ensures
        spec_backlinks(nidx, t).contains(z.path) <==> links_of(z.content).contains(t),
        forall|b: Seq<char>|
            b != z.path ==> (spec_backlinks(nidx, t).contains(b) <==> spec_backlinks(
                idx,
                t,
            ).contains(b)),
{
    // the saved note's own contribution
    if spec_backlinks(nidx, t).contains(z.path) {
        let w = choose|w: int|
            0 <= w < nidx.len() && (#[trigger] nidx[w]).0 == z.path && nidx[w].1.contains(t);
        assert(nidx.contains(nidx[w]));
        assert(nidx[w] == (z.path, z.links));
        let x = choose|x: int| 0 <= x < z.links.len() && z.links[x] == t;
        assert(crate::links::is_link_of(z.content, t));
    }
    if links_of(z.content).contains(t) {
        assert(z.links.contains(t));
        assert(nidx.contains((z.path, z.links)));
        let w = choose|w: int| 0 <= w < nidx.len() && nidx[w] == (z.path, z.links);
        assert(spec_backlinks(nidx, t).contains(z.path));
    }
    // everyone else's contribution
    assert forall|b: Seq<char>| b != z.path implies (spec_backlinks(nidx, t).contains(b)
        <==> spec_backlinks(idx, t).contains(b)) by {
        if spec_backlinks(nidx, t).contains(b) {
            let w = choose|w: int|
                0 <= w < nidx.len() && (#[trigger] nidx[w]).0 == b && nidx[w].1.contains(t);
            assert(nidx.contains(nidx[w]));
            assert(idx.contains(nidx[w]));
            let w2 = choose|w2: int| 0 <= w2 < idx.len() && idx[w2] == nidx[w];
            assert(spec_backlinks(idx, t).contains(b));
        }
        if spec_backlinks(idx, t).contains(b) {
            let w = choose|w: int|
                0 <= w < idx.len() && (#[trigger] idx[w]).0 == b && idx[w].1.contains(t);
            assert(idx.contains(idx[w]));
            assert(nidx.contains(idx[w]));
            let w2 = choose|w2: int| 0 <= w2 < nidx.len() && nidx[w2] == idx[w];
            assert(spec_backlinks(nidx, t).contains(b));
        }
    }
}

} // verus!
