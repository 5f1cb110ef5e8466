//! Link extractor: scans body text for inline references of the form
//! `[title](identity)` and collects the set of referenced identities.
//!
//! An occurrence counts when a `]` directly followed by `(` has some `[`
//! before it with no other `]` in between; the identity is everything from
//! that `(` to the first following `)`. Malformed or partial brackets are
//! ignored, never an error: a link is a best-effort derived feature and a
//! failed match only means no link is registered.

use vstd::prelude::*;

use crate::text::{chars_of, find_char, first_at, string_range, str_eq};

verus! {

/// Whether some `[` stands before `j` with no `]` between it and `j`.
pub open spec fn has_open_before(s: Seq<char>, j: int) -> bool {
    exists|i: int|
        0 <= i < j && #[trigger] s[i] == '[' && (forall|m: int| i < m < j ==> s[m] != ']')
}

/// The identity of the link whose closing bracket stands at `j`, if the text
/// at `j` completes a well-formed occurrence.
pub open spec fn link_target_at(s: Seq<char>, j: int) -> Option<Seq<char>> {
    if 0 <= j && j + 1 < s.len() && s[j] == ']' && s[j + 1] == '(' && has_open_before(s, j) {
        match first_at(s, ')', j + 2) {
            Some(k) => Some(s.subrange(j + 2, k)),
            None => None,
        }
    } else {
        None
    }
}

/// Whether `t` is referenced from somewhere in `s`.
pub open spec fn is_link_of(s: Seq<char>, t: Seq<char>) -> bool {
    exists|j: int| #[trigger] link_target_at(s, j) == Some(t)
}

/// The set of identities the body text `s` references.
pub open spec fn links_of(s: Seq<char>) -> Set<Seq<char>> {
    Set::new(|t: Seq<char>| is_link_of(s, t))
}

proof fn lemma_open_step(s: Seq<char>, j: int)
    requires
        0 <= j < s.len(),
    ensures
        has_open_before(s, j + 1) == (s[j] == '[' || (has_open_before(s, j) && s[j] != ']')),
{
    if s[j] == '[' {
        assert(forall|m: int| j < m < j + 1 ==> s[m] != ']');
        assert(has_open_before(s, j + 1));
    } else if s[j] == ']' {
        if has_open_before(s, j + 1) {
            let i = choose|i: int|
                0 <= i < j + 1 && #[trigger] s[i] == '[' && (forall|m: int|
                    i < m < j + 1 ==> s[m] != ']');
            if i == j {
                assert(s[j] == '[');
            } else {
                assert(i < j);
                assert(s[j] != ']');
            }
            assert(false);
        }
    } else {
        if has_open_before(s, j) {
            let i = choose|i: int|
                0 <= i < j && #[trigger] s[i] == '[' && (forall|m: int| i < m < j ==> s[m] != ']');
            assert(forall|m: int| i < m < j + 1 ==> s[m] != ']') by {
                assert(forall|m: int| i < m < j ==> s[m] != ']');
                assert(s[j] != ']');
            }
            assert(has_open_before(s, j + 1));
        }
        if has_open_before(s, j + 1) {
            let i = choose|i: int|
                0 <= i < j + 1 && #[trigger] s[i] == '[' && (forall|m: int|
                    i < m < j + 1 ==> s[m] != ']');
            assert(i != j);
            assert(has_open_before(s, j));
        }
    }
}

/// Whether some element of `v` holds the characters of `t`.
pub fn contains_str(v: &Vec<String>, t: &str) -> (r: bool)
    ensures
        r == v.deep_view().contains(t@),
{
    let mut i: usize = 0;
    while i < v.len()
        invariant
            i <= v@.len(),
            forall|m: int| 0 <= m < i ==> #[trigger] v.deep_view()[m] != t@,
        decreases v@.len() - i,
    {
        if str_eq(v[i].as_str(), t) {
            proof {
                assert(v.deep_view()[i as int] == t@);
            }
            return true;
        }
        i = i + 1;
    }
    proof {
        if v.deep_view().contains(t@) {
            let w = choose|w: int| 0 <= w < v.deep_view().len() && v.deep_view()[w] == t@;
            assert(v.deep_view()[w] != t@);
        }
    }
    false
}

/// Collects the identities referenced from `body`: exactly the set the
/// specification `links_of` describes, each once, in first-occurrence order.
pub fn extract_links(body: &str) -> (r: Vec<String>)
    ensures
        forall|x: int|
            0 <= x < r.deep_view().len() ==> is_link_of(body@, #[trigger] r.deep_view()[x]),
        forall|t: Seq<char>| is_link_of(body@, t) ==> r.deep_view().contains(t),
        forall|x: int, y: int|
            0 <= x < y < r.deep_view().len() ==> #[trigger] r.deep_view()[x] != #[trigger] r.deep_view()[y],
{
    let v = chars_of(body);
    let mut out: Vec<String> = Vec::new();
    let mut pending = false;
    let mut j: usize = 0;
    while j < v.len()
        invariant
            j <= v@.len(),
            v@ == body@,
            pending == has_open_before(v@, j as int),
            forall|x: int|
                0 <= x < out.deep_view().len() ==> is_link_of(v@, #[trigger] out.deep_view()[x]),
            forall|q: int|
                0 <= q < j ==> ((#[trigger] link_target_at(v@, q)) matches Some(t)
                    ==> out.deep_view().contains(t)),
            forall|x: int, y: int|
                0 <= x < y < out.deep_view().len() ==> #[trigger] out.deep_view()[x] != #[trigger] out.deep_view()[y],
        decreases v@.len() - j,
    {
        let c = v[j];
        let ghost old_dv = out.deep_view();
        if c == ']' && pending && j + 1 < v.len() && v[j + 1] == '(' {
            match find_char(&v, ')', j + 2) {
                Some(k) => {
                    let t = string_range(&v, j + 2, k);
                    proof {
                        assert(link_target_at(v@, j as int) == Some(t@));
                    }
                    if !contains_str(&out, t.as_str()) {
                        out.push(t);
                        proof {
                            assert(out.deep_view() =~= old_dv.push(out@.last()@));
                            assert(out.deep_view().last() == out@.last()@);
                            assert forall|q: int|
                                0 <= q < j + 1 implies ((#[trigger] link_target_at(v@, q))
                                matches Some(t2) ==> out.deep_view().contains(t2)) by {
                                if link_target_at(v@, q) is Some {
                                    let t2 = link_target_at(v@, q)->Some_0;
                                    if q < j {
                                        let w = choose|w: int|
                                            0 <= w < old_dv.len() && old_dv[w] == t2;
                                        assert(out.deep_view()[w] == t2);
                                    } else {
                                        assert(out.deep_view().last() == t2);
                                    }
                                }
                            }
                        }
                    } else {
                        proof {
                            assert forall|q: int|
                                0 <= q < j + 1 implies ((#[trigger] link_target_at(v@, q))
                                matches Some(t2) ==> out.deep_view().contains(t2)) by {}
                        }
                    }
                },
                None => {
                    proof {
                        assert(link_target_at(v@, j as int) is None);
                    }
                },
            }
        } else {
            proof {
                assert(link_target_at(v@, j as int) is None);
            }
        }
        proof {
            lemma_open_step(v@, j as int);
        }
        if c == '[' {
            pending = true;
        } else if c == ']' {
            pending = false;
        }
        j = j + 1;
    }
    proof {
        assert forall|t: Seq<char>| is_link_of(body@, t) implies out.deep_view().contains(t) by {
            let q = choose|q: int| #[trigger] link_target_at(body@, q) == Some(t);
            assert(0 <= q < body@.len());
        }
    }
    out
}

/// The inline reference text inserted when a note is referenced:
/// `[title](identity)`.
pub fn link_text(title: &str, identity: &str) -> (r: String)
    ensures
        r@ == seq!['['] + title@ + seq![']', '('] + identity@ + seq![')'],
{
    let mut v: Vec<char> = Vec::new();
    v.push('[');
    let tc = chars_of(title);
    let mut i: usize = 0;
    while i < tc.len()
        invariant
            i <= tc@.len(),
            tc@ == title@,
            v@ == seq!['['] + title@.subrange(0, i as int),
        decreases tc@.len() - i,
    {
        v.push(tc[i]);
        i = i + 1;
        proof {
            assert(v@ =~= seq!['['] + title@.subrange(0, i as int));
        }
    }
    v.push(']');
    v.push('(');
    let ic = chars_of(identity);
    let ghost mid = seq!['['] + title@ + seq![']', '('];
    proof {
        assert(title@.subrange(0, title@.len() as int) =~= title@);
        assert(v@ =~= mid + identity@.subrange(0, 0));
    }
    let mut j: usize = 0;
    while j < ic.len()
        invariant
            j <= ic@.len(),
            ic@ == identity@,
            v@ == mid + identity@.subrange(0, j as int),
            mid == seq!['['] + title@ + seq![']', '('],
        decreases ic@.len() - j,
    {
        v.push(ic[j]);
        j = j + 1;
        proof {
            assert(v@ =~= mid + identity@.subrange(0, j as int));
        }
    }
    v.push(')');
    proof {
        assert(identity@.subrange(0, identity@.len() as int) =~= identity@);
        assert(v@ =~= seq!['['] + title@ + seq![']', '('] + identity@ + seq![')']);
    }
    crate::text::string_of(&v)
}

/// The reference text `[title](identity)` registers as a link to exactly
/// that identity, as long as the shown title holds no closing bracket and
/// the identity no closing parenthesis.
pub proof fn lemma_link_text_links(title: Seq<char>, id: Seq<char>)
    requires
        forall|i: int| 0 <= i < title.len() ==> title[i] != ']',
        forall|i: int| 0 <= i < id.len() ==> id[i] != ')',
    ensures
        links_of(seq!['['] + title + seq![']', '('] + id + seq![')']).contains(id),
{
    let s = seq!['['] + title + seq![']', '('] + id + seq![')'];
    let j = 1 + title.len() as int;
    assert(s[0] == '[');
    assert(s[j] == ']');
    assert(s[j + 1] == '(');
    assert(has_open_before(s, j)) by {
        assert(forall|m: int| 0 < m < j ==> s[m] == title[m - 1]);
        assert(forall|m: int| 0 < m < j ==> s[m] != ']');
    }
    let k = j + 2 + id.len() as int;
    assert(s[k] == ')');
    crate::text::lemma_first_at(s, ')', j + 2);
    match first_at(s, ')', j + 2) {
        Some(q) => {
            if q < k {
                assert(s[q] == id[q - j - 2]);
                assert(false);
            }
            if q > k {
                assert(s[k] != ')');
                assert(false);
            }
            assert(s.subrange(j + 2, k) =~= id);
            assert(link_target_at(s, j) == Some(id));
        },
        None => {
            assert(s[k] != ')');
            assert(false);
        },
    }
}

} // verus!
