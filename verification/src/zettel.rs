//! A note (Zettel): one file, one identity. Holds the decoded front matter,
//! the body text, and the derived set of outgoing link identities, which is
//! recomputed whenever the body changes so it can never drift from the text.

use vstd::prelude::*;

use crate::frontmatter::{decode, encode, spec_decode, spec_encode, MetaModel, ZettelHeader};
use crate::links::{extract_links, is_link_of, links_of};

verus! {

/// Why a note could not be loaded or saved. Reading and writing the file is
/// the caller's business, so the caller maps its file errors to `NotFound`
/// (routinely expected when probing) or `Io`; decoding reports a malformed
/// header with the offending text.
#[derive(Debug)]
pub enum ZettelError {
    NotFound,
    Io,
    MalformedHeader(String),
}

/// Mathematical model of a note.
pub struct ZettelModel {
    pub path: Seq<char>,
    pub meta: MetaModel,
    pub content: Seq<char>,
    pub links: Seq<Seq<char>>,
    pub dirty: bool,
}

/// The derived link list is exactly the set of identities the body
/// references, each held once.
pub open spec fn zettel_wf(z: ZettelModel) -> bool {
    &&& forall|x: int| 0 <= x < z.links.len() ==> is_link_of(z.content, #[trigger] z.links[x])
    &&& forall|t: Seq<char>| is_link_of(z.content, t) ==> z.links.contains(t)
    &&& forall|x: int, y: int|
        0 <= x < y < z.links.len() ==> #[trigger] z.links[x] != #[trigger] z.links[y]
}

/// The title a note presents: the metadata title, or empty when absent.
pub open spec fn spec_title(m: MetaModel) -> Seq<char> {
    match m.title {
        Some(t) => t,
        None => Seq::empty(),
    }
}

#[derive(Debug)]
pub struct Zettel {
    path: String,
    header: ZettelHeader,
    content: String,
    links: Vec<String>,
    dirty: bool,
}

impl View for Zettel {
    type V = ZettelModel;

    closed spec fn view(&self) -> ZettelModel {
        ZettelModel {
            path: self.path@,
            meta: self.header@,
            content: self.content@,
            links: self.links.deep_view(),
            dirty: self.dirty,
        }
    }
}

impl Zettel {
    /// Decodes the text of a note file read from `path` (the identity: the
    /// file's normalized path relative to the slip-box root). A malformed
    /// header is reported with the offending text; nothing else fails.
    pub fn from_text(path: &str, text: &str) -> (r: Result<Zettel, ZettelError>)
        ensures
            match r {
                Ok(z) => {
                    &&& spec_decode(text@) == Ok::<(MetaModel, Seq<char>), Seq<char>>(
                        (z@.meta, z@.content),
                    )
                    &&& z@.path == path@
                    &&& zettel_wf(z@)
                    &&& !z@.dirty
                },
                Err(e) => {
                    &&& e matches ZettelError::MalformedHeader(l)
                    &&& spec_decode(text@) == Err::<(MetaModel, Seq<char>), Seq<char>>(l@)
                },
            },
    {
        match decode(text) {
            Err(l) => Err(ZettelError::MalformedHeader(l)),
            Ok(p) => {
                let (header, content) = p;
                let links = extract_links(content.as_str());
                Ok(Zettel { path: String::from_str(path), header, content, links, dirty: false })
            },
        }
    }

    /// A fresh, un-persisted note under the given identity: empty metadata,
    /// empty body, no links, not yet saved.
    pub fn new(path: &str) -> (r: Zettel)
        ensures
            r@.path == path@,
            r@.meta == crate::frontmatter::empty_meta(),
            r@.content == Seq::<char>::empty(),
            r@.links == Seq::<Seq<char>>::empty(),
            r@.dirty,
            zettel_wf(r@),
    {
        let z = Zettel {
            path: String::from_str(path),
            header: ZettelHeader { title: None, extra: Vec::new() },
            content: String::new(),
            links: Vec::new(),
            dirty: true,
        };
        proof {
            assert(z@.meta.extra =~= crate::frontmatter::empty_meta().extra);
            assert(z@.links =~= Seq::<Seq<char>>::empty());
            assert forall|t: Seq<char>| is_link_of(z@.content, t) implies z@.links.contains(
                t,
            ) by {
                let j = choose|j: int| #[trigger]
                    crate::links::link_target_at(z@.content, j) == Some(t);
            }
        }
        z
    }

    /// The note's identity.
    pub fn path(&self) -> (r: &str)
        ensures
            r@ == self@.path,
    {
        self.path.as_str()
    }

    /// The note's title: the metadata title, or empty when the front matter
    /// does not set one.
    pub fn title(&self) -> (r: &str)
        ensures
            r@ == spec_title(self@.meta),
    {
        match &self.header.title {
            Some(t) => t.as_str(),
            None => {
                proof {
                    reveal_strlit("");
                    assert(""@ =~= Seq::<char>::empty());
                }
                ""
            },
        }
    }

    /// The note's body text.
    pub fn content(&self) -> (r: &str)
        ensures
            r@ == self@.content,
    {
        self.content.as_str()
    }

    /// The decoded front matter.
    pub fn header(&self) -> (r: &ZettelHeader)
        ensures
            r@ == self@.meta,
    {
        &self.header
    }

    /// The identities this note's body references, each once.
    pub fn contexts(&self) -> (r: &Vec<String>)
        ensures
            r.deep_view() == self@.links,
    {
        &self.links
    }

    /// Whether the note has unsaved changes.
    pub fn is_dirty(&self) -> (r: bool)
        ensures
            r == self@.dirty,
    {
        self.dirty
    }

    /// Replaces the title and marks the note dirty; identity, body and links
    /// are untouched.
    pub fn set_title(&mut self, title: &str)
        ensures
            final(self)@ == (ZettelModel {
                meta: MetaModel { title: Some(title@), extra: old(self)@.meta.extra },
                dirty: true,
                ..old(self)@
            }),
    {
        self.header.title = Some(String::from_str(title));
        self.dirty = true;
    }

    /// Replaces the body, recomputes the outgoing links from the new text,
    /// and marks the note dirty; identity and metadata are untouched.
    pub fn set_content(&mut self, content: &str)
        ensures
            final(self)@.path == old(self)@.path,
            final(self)@.meta == old(self)@.meta,
            final(self)@.content == content@,
            final(self)@.dirty,
            zettel_wf(final(self)@),
    {
        self.content = String::from_str(content);
        self.links = extract_links(content);
        self.dirty = true;
    }

    /// Encodes the note back into the text of its file; the slip-box writes
    /// this text to the identity's path.
    pub fn save(&self) -> (r: String)
        ensures
            r@ == spec_encode(self@.meta, self@.content),
    {
        encode(&self.header, self.content.as_str())
    }

    /// Whether this note's body references `identity`.
    pub fn links_to(&self, identity: &str) -> (r: bool)
        requires
            zettel_wf(self@),
        ensures
            r == links_of(self@.content).contains(identity@),
    {
        let r = crate::links::contains_str(&self.links, identity);
        proof {
            if r {
                let w = choose|w: int|
                    0 <= w < self@.links.len() && self@.links[w] == identity@;
            } else {
                if links_of(self@.content).contains(identity@) {
                    assert(self@.links.contains(identity@));
                }
            }
        }
        r
    }
}

/// Loading the same file twice yields the same note: same identity, title,
/// metadata, body, and the same set of links. The load result is a function
/// of the file path and text alone.
pub proof fn lemma_load_deterministic(a: ZettelModel, b: ZettelModel, path: Seq<char>, text: Seq<char>)
    requires
        a.path == path,
        b.path == path,
        spec_decode(text) == Ok::<(MetaModel, Seq<char>), Seq<char>>((a.meta, a.content)),
        spec_decode(text) == Ok::<(MetaModel, Seq<char>), Seq<char>>((b.meta, b.content)),
        zettel_wf(a),
        zettel_wf(b),
    ensures
        a.path == b.path,
        a.meta == b.meta,
        spec_title(a.meta) == spec_title(b.meta),
        a.content == b.content,
        a.links.to_set() == b.links.to_set(),
{
    assert forall|t: Seq<char>| a.links.to_set().contains(t) implies b.links.to_set().contains(
        t,
    ) by {
        assert(a.links.contains(t));
        let w = choose|w: int| 0 <= w < a.links.len() && a.links[w] == t;
        assert(is_link_of(a.content, t));
        assert(b.links.contains(t));
    }
    assert forall|t: Seq<char>| b.links.to_set().contains(t) implies a.links.to_set().contains(
        t,
    ) by {
        assert(b.links.contains(t));
        let w = choose|w: int| 0 <= w < b.links.len() && b.links[w] == t;
        assert(is_link_of(b.content, t));
        assert(a.links.contains(t));
    }
    assert(a.links.to_set() =~= b.links.to_set());
}

} // verus!
