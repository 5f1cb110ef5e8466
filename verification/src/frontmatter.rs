//! Front-matter codec: converts between the raw text of a note file and a
//! `(ZettelHeader, body)` pair.
//!
//! A note file optionally begins with a delimiter line of three plus signs.
//! The lines up to the next such line form the metadata block; each of them
//! is blank or holds `key = "value"` with a quoted, backslash-escaped value.
//! Everything after the closing delimiter line is the body, verbatim. A file
//! whose first line is no delimiter has no front matter: default metadata,
//! the whole file as body. A file that opens a block and never closes it is
//! malformed, not headerless.

use vstd::prelude::*;

use crate::text::{chars_of, find_char, first_at, string_of, string_range, str_eq, subvec};

verus! {

// ---------------------------------------------------------------------------
// The metadata type and its mathematical model
// ---------------------------------------------------------------------------

/// One uninterpreted key/value pair kept through a load/save round trip.
#[derive(Debug)]
pub struct MetaField {
    pub key: String,
    pub value: String,
}

impl View for MetaField {
    type V = (Seq<char>, Seq<char>);

    open spec fn view(&self) -> (Seq<char>, Seq<char>) {
        (self.key@, self.value@)
    }
}

impl DeepView for MetaField {
    type V = (Seq<char>, Seq<char>);

    open spec fn deep_view(&self) -> (Seq<char>, Seq<char>) {
        self.view()
    }
}

/// The decoded front matter of a note: the one key the library interprets
/// (`title`, absent when the block does not set it) and every other key/value
/// pair of the block, in block order.
#[derive(Debug)]
pub struct ZettelHeader {
    pub title: Option<String>,
    pub extra: Vec<MetaField>,
}

/// Mathematical model of a header: the title, if any, and the remaining
/// key/value pairs in order.
pub struct MetaModel {
    pub title: Option<Seq<char>>,
    pub extra: Seq<(Seq<char>, Seq<char>)>,
}

impl View for ZettelHeader {
    type V = MetaModel;

    open spec fn view(&self) -> MetaModel {
        MetaModel {
            title: match self.title {
                Some(t) => Some(t@),
                None => None,
            },
            extra: self.extra.deep_view(),
        }
    }
}

pub open spec fn empty_meta() -> MetaModel {
    MetaModel { title: None, extra: Seq::empty() }
}

pub open spec fn title_key() -> Seq<char> {
    seq!['t', 'i', 't', 'l', 'e']
}

pub open spec fn delim() -> Seq<char> {
    seq!['+', '+', '+']
}

/// Bare keys: ASCII letters, digits, `_` and `-`, as the block syntax writes
/// them unquoted.
pub open spec fn valid_key_char(c: char) -> bool {
    ('a' <= c && c <= 'z') || ('A' <= c && c <= 'Z') || ('0' <= c && c <= '9') || c == '_' || c
        == '-'
}

pub open spec fn valid_key(k: Seq<char>) -> bool {
    k.len() > 0 && forall|i: int| 0 <= i < k.len() ==> valid_key_char(#[trigger] k[i])
}

pub open spec fn has_key(x: Seq<(Seq<char>, Seq<char>)>, k: Seq<char>) -> bool {
    exists|i: int| 0 <= i < x.len() && (#[trigger] x[i]).0 == k
}

/// A header that the codec itself produces: every extra key is a valid bare
/// key, none repeats, and none is the title key.
pub open spec fn meta_wf(m: MetaModel) -> bool {
    &&& forall|i: int|
        0 <= i < m.extra.len() ==> valid_key((#[trigger] m.extra[i]).0) && m.extra[i].0
            != title_key()
    &&& forall|i: int, j: int|
        0 <= i < j < m.extra.len() ==> (#[trigger] m.extra[i]).0 != (#[trigger] m.extra[j]).0
}

// ---------------------------------------------------------------------------
// Escaping of quoted values
// ---------------------------------------------------------------------------

/// How one character of a value is written inside the quotes: backslash,
/// quote and newline are escaped, every other character stands as itself.
pub open spec fn escape_char(c: char) -> Seq<char> {
    if c == '\\' {
        seq!['\\', '\\']
    } else if c == '"' {
        seq!['\\', '"']
    } else if c == '\n' {
        seq!['\\', 'n']
    } else {
        seq![c]
    }
}

pub open spec fn escape(s: Seq<char>) -> Seq<char>
    decreases s.len(),
{
    if s.len() == 0 {
        Seq::empty()
    } else {
        escape_char(s[0]) + escape(s.drop_first())
    }
}

/// The character an escape code stands for; codes the encoder never emits
/// (`t`, `r`) are accepted on input all the same.
pub open spec fn unescape_code(c: char) -> Option<char> {
    if c == '\\' {
        Some('\\')
    } else if c == '"' {
        Some('"')
    } else if c == 'n' {
        Some('\n')
    } else if c == 't' {
        Some('\t')
    } else if c == 'r' {
        Some('\r')
    } else {
        None
    }
}

// ---------------------------------------------------------------------------
// Line geometry
// ---------------------------------------------------------------------------

/// Index of the newline ending the line that starts at `p`, or the end of the
/// text for an unterminated last line.
pub open spec fn line_end(s: Seq<char>, p: int) -> int {
    match first_at(s, '\n', p) {
        Some(k) => k,
        None => s.len() as int,
    }
}

/// Start of the line after the one starting at `p`.
pub open spec fn next_line(s: Seq<char>, p: int) -> int {
    if line_end(s, p) < s.len() {
        line_end(s, p) + 1
    } else {
        s.len() as int
    }
}

/// Whether the line starting at `p` is exactly the delimiter.
pub open spec fn is_delim_line(s: Seq<char>, p: int) -> bool {
    s.subrange(p, line_end(s, p)) == delim()
}

/// Start of the first delimiter line at or after the line start `p`.
pub open spec fn find_close(s: Seq<char>, p: int) -> Option<int>
    decreases s.len() - p,
    when 0 <= p <= s.len()
    via find_close_decreases
{
    if p >= s.len() {
        None
    } else if is_delim_line(s, p) {
        Some(p)
    } else {
        find_close(s, next_line(s, p))
    }
}

#[via_fn]
proof fn find_close_decreases(s: Seq<char>, p: int) {
    crate::text::lemma_first_at(s, '\n', p);
}

// ---------------------------------------------------------------------------
// Parsing one line and one block
// ---------------------------------------------------------------------------

/// What one line of the block means.
pub enum LineShape {
    /// Only spaces and tabs.
    Blank,
    /// `key = "value"`, up to surrounding spaces.
    Pair(Seq<char>, Seq<char>),
    /// Anything else: the block is malformed.
    Bad,
}

pub open spec fn is_space(c: char) -> bool {
    c == ' ' || c == '\t'
}

/// First index at or after `i` that is no space or tab.
pub open spec fn skip_spaces(s: Seq<char>, i: int) -> int
    decreases s.len() - i,
    when 0 <= i <= s.len()
{
    if i >= s.len() {
        i
    } else if is_space(s[i]) {
        skip_spaces(s, i + 1)
    } else {
        i
    }
}

/// Index before which the trailing spaces and tabs of `s[..e]` start.
pub open spec fn trim_end(s: Seq<char>, e: int) -> int
    decreases e,
    when 0 <= e <= s.len()
{
    if e <= 0 {
        0
    } else if is_space(s[e - 1]) {
        trim_end(s, e - 1)
    } else {
        e
    }
}

/// First index at or after `i` that is no bare-key character.
pub open spec fn key_end(s: Seq<char>, i: int) -> int
    decreases s.len() - i,
    when 0 <= i <= s.len()
{
    if i >= s.len() {
        i
    } else if valid_key_char(s[i]) {
        key_end(s, i + 1)
    } else {
        i
    }
}

/// Reads a quoted value from index `i` on (the opening quote already
/// consumed), appending to `acc`; yields the value and the index right after
/// the closing quote.
pub open spec fn parse_quoted(s: Seq<char>, i: int, acc: Seq<char>) -> Option<(Seq<char>, int)>
    decreases s.len() - i,
    when 0 <= i <= s.len()
{
    if i >= s.len() {
        None
    } else if s[i] == '"' {
        Some((acc, i + 1))
    } else if s[i] == '\\' {
        if i + 1 >= s.len() {
            None
        } else {
            match unescape_code(s[i + 1]) {
                Some(c) => parse_quoted(s, i + 2, acc.push(c)),
                None => None,
            }
        }
    } else if s[i] == '\n' {
        None
    } else {
        parse_quoted(s, i + 1, acc.push(s[i]))
    }
}

pub open spec fn parse_line(line: Seq<char>) -> LineShape {
    let b = skip_spaces(line, 0);
    let e = trim_end(line, line.len() as int);
    if b >= e {
        LineShape::Blank
    } else {
        let ke = key_end(line, b);
        if ke <= b {
            LineShape::Bad
        } else {
            let a1 = skip_spaces(line, ke);
            if a1 >= e || line[a1] != '=' {
                LineShape::Bad
            } else {
                let a2 = skip_spaces(line, a1 + 1);
                if a2 >= e || line[a2] != '"' {
                    LineShape::Bad
                } else {
                    match parse_quoted(line, a2 + 1, Seq::empty()) {
                        Some((v, end)) => if end == e {
                            LineShape::Pair(line.subrange(b, ke), v)
                        } else {
                            LineShape::Bad
                        },
                        None => LineShape::Bad,
                    }
                }
            }
        }
    }
}

/// Folds one parsed pair into the metadata gathered so far; a repeated key,
/// including a repeated title, is malformed.
pub open spec fn meta_step(m: MetaModel, line: Seq<char>, k: Seq<char>, v: Seq<char>) -> Result<
    MetaModel,
    Seq<char>,
> {
    if k == title_key() {
        if m.title is Some {
            Err(line)
        } else {
            Ok(MetaModel { title: Some(v), extra: m.extra })
        }
    } else {
        if has_key(m.extra, k) {
            Err(line)
        } else {
            Ok(MetaModel { title: m.title, extra: m.extra.push((k, v)) })
        }
    }
}

/// Parses the block `s` line by line from `p` on, into the metadata gathered
/// so far; an error carries the offending line.
pub open spec fn parse_block(s: Seq<char>, p: int, acc: MetaModel) -> Result<MetaModel, Seq<char>>
    decreases s.len() - p,
    when 0 <= p <= s.len()
    via parse_block_decreases
{
    if p >= s.len() {
        Ok(acc)
    } else {
        let line = s.subrange(p, line_end(s, p));
        match parse_line(line) {
            LineShape::Bad => Err(line),
            LineShape::Blank => parse_block(s, next_line(s, p), acc),
            LineShape::Pair(k, v) => match meta_step(acc, line, k, v) {
                Ok(m) => parse_block(s, next_line(s, p), m),
                Err(l) => Err(l),
            },
        }
    }
}

#[via_fn]
proof fn parse_block_decreases(s: Seq<char>, p: int, acc: MetaModel) {
    crate::text::lemma_first_at(s, '\n', p);
}

// ---------------------------------------------------------------------------
// The whole-file codec, as specification
// ---------------------------------------------------------------------------

/// What decoding a file yields: the metadata and the body, or the offending
/// text of a malformed header.
pub open spec fn spec_decode(s: Seq<char>) -> Result<(MetaModel, Seq<char>), Seq<char>> {
    if !is_delim_line(s, 0) {
        Ok((empty_meta(), s))
    } else {
        let h0 = next_line(s, 0);
        match find_close(s, h0) {
            None => Err(s.subrange(h0, s.len() as int)),
            Some(p) => match parse_block(s.subrange(h0, p), 0, empty_meta()) {
                Ok(m) => Ok((m, s.subrange(next_line(s, p), s.len() as int))),
                Err(l) => Err(l),
            },
        }
    }
}

/// One encoded `key = "value"` line, without its newline.
pub open spec fn kv_body(k: Seq<char>, v: Seq<char>) -> Seq<char> {
    k + seq![' ', '=', ' ', '"'] + escape(v) + seq!['"']
}

/// One encoded `key = "value"` line, newline included.
pub open spec fn kv_line(k: Seq<char>, v: Seq<char>) -> Seq<char> {
    kv_body(k, v) + seq!['\n']
}

/// The fields a header writes, title first.
pub open spec fn fields_of(m: MetaModel) -> Seq<(Seq<char>, Seq<char>)> {
    match m.title {
        Some(t) => seq![(title_key(), t)] + m.extra,
        None => m.extra,
    }
}

pub open spec fn kv_lines(fields: Seq<(Seq<char>, Seq<char>)>) -> Seq<char>
    decreases fields.len(),
{
    if fields.len() == 0 {
        Seq::empty()
    } else {
        kv_line(fields[0].0, fields[0].1) + kv_lines(fields.drop_first())
    }
}

/// What encoding writes: the opening delimiter line, one line per field, the
/// closing delimiter line, then the body verbatim.
pub open spec fn spec_encode(m: MetaModel, body: Seq<char>) -> Seq<char> {
    delim() + seq!['\n'] + kv_lines(fields_of(m)) + delim() + seq!['\n'] + body
}

// ---------------------------------------------------------------------------
// Executable parsing
// ---------------------------------------------------------------------------

fn is_space_char(c: char) -> (r: bool)
    ensures
        r == is_space(c),
{
    c == ' ' || c == '\t'
}

fn is_key_char(c: char) -> (r: bool)
    ensures
        r == valid_key_char(c),
{
    ('a' <= c && c <= 'z') || ('A' <= c && c <= 'Z') || ('0' <= c && c <= '9') || c == '_' || c
        == '-'
}

fn unescape_code_exec(c: char) -> (r: Option<char>)
    ensures
        r == unescape_code(c),
{
    if c == '\\' {
        Some('\\')
    } else if c == '"' {
        Some('"')
    } else if c == 'n' {
        Some('\n')
    } else if c == 't' {
        Some('\t')
    } else if c == 'r' {
        Some('\r')
    } else {
        None
    }
}

fn parse_quoted_exec(line: &Vec<char>, start: usize) -> (r: Option<(Vec<char>, usize)>)
    requires
        start <= line@.len(),
    ensures
        match r {
            Some(p) => parse_quoted(line@, start as int, Seq::empty()) == Some(
                (p.0@, p.1 as int),
            ) && p.1 <= line@.len(),
            None => parse_quoted(line@, start as int, Seq::empty()) is None,
        },
{
    let mut i: usize = start;
    let mut acc: Vec<char> = Vec::new();
    loop
        invariant
            start <= i <= line@.len(),
            parse_quoted(line@, start as int, Seq::empty()) == parse_quoted(
                line@,
                i as int,
                acc@,
            ),
        decreases line@.len() - i,
    {
        if i >= line.len() {
            return None;
        }
        let c = line[i];
        if c == '"' {
            return Some((acc, i + 1));
        } else if c == '\\' {
            if i + 1 >= line.len() {
                return None;
            }
            match unescape_code_exec(line[i + 1]) {
                Some(u) => {
                    acc.push(u);
                    i = i + 2;
                },
                None => {
                    return None;
                },
            }
        } else if c == '\n' {
            return None;
        } else {
            acc.push(c);
            i = i + 1;
        }
    }
}

/// What the executable line parser hands back.
enum LineToken {
    Blank,
    Bad,
    Pair(String, String),
}

fn parse_line_exec(line: &Vec<char>) -> (r: LineToken)
    ensures
        match r {
            LineToken::Blank => parse_line(line@) == LineShape::Blank,
            LineToken::Bad => parse_line(line@) == LineShape::Bad,
            LineToken::Pair(k, v) => parse_line(line@) == LineShape::Pair(k@, v@),
        },
{
    let n = line.len();
    let mut b: usize = 0;
    while b < n && is_space_char(line[b])
        invariant
            0 <= b <= n == line@.len(),
            skip_spaces(line@, 0) == skip_spaces(line@, b as int),
        decreases n - b,
    {
        b = b + 1;
    }
    let mut e: usize = n;
    while e > 0 && is_space_char(line[e - 1])
        invariant
            0 <= e <= n == line@.len(),
            trim_end(line@, n as int) == trim_end(line@, e as int),
        decreases e,
    {
        e = e - 1;
    }
    if b >= e {
        return LineToken::Blank;
    }
    let mut ke: usize = b;
    while ke < n && is_key_char(line[ke])
        invariant
            b <= ke <= n == line@.len(),
            key_end(line@, b as int) == key_end(line@, ke as int),
        decreases n - ke,
    {
        ke = ke + 1;
    }
    if ke <= b {
        return LineToken::Bad;
    }
    let mut a1: usize = ke;
    while a1 < n && is_space_char(line[a1])
        invariant
            ke <= a1 <= n == line@.len(),
            skip_spaces(line@, ke as int) == skip_spaces(line@, a1 as int),
        decreases n - a1,
    {
        a1 = a1 + 1;
    }
    if a1 >= e || line[a1] != '=' {
        return LineToken::Bad;
    }
    let mut a2: usize = a1 + 1;
    while a2 < n && is_space_char(line[a2])
        invariant
            a1 + 1 <= a2 <= n == line@.len(),
            skip_spaces(line@, a1 + 1 as int) == skip_spaces(line@, a2 as int),
        decreases n - a2,
    {
        a2 = a2 + 1;
    }
    if a2 >= e || line[a2] != '"' {
        return LineToken::Bad;
    }
    match parse_quoted_exec(line, a2 + 1) {
        None => LineToken::Bad,
        Some(p) => {
            let (vchars, end) = p;
            if end == e {
                let k = string_range(line, b, ke);
                let v = string_of(&vchars);
                LineToken::Pair(k, v)
            } else {
                LineToken::Bad
            }
        },
    }
}

pub proof fn lemma_title_key()
    ensures
        "title"@ == title_key(),
{
    reveal_strlit("title");
    assert("title"@ =~= title_key());
}

fn extras_have_key(extra: &Vec<MetaField>, k: &str) -> (r: bool)
    ensures
        r == has_key(extra.deep_view(), k@),
{
    let mut i: usize = 0;
    while i < extra.len()
        invariant
            i <= extra@.len(),
            forall|m: int| 0 <= m < i ==> (#[trigger] extra.deep_view()[m]).0 != k@,
        decreases extra@.len() - i,
    {
        if str_eq(extra[i].key.as_str(), k) {
            proof {
                assert(extra.deep_view()[i as int].0 == k@);
            }
            return true;
        }
        i = i + 1;
    }
    false
}

fn parse_block_exec(block: &Vec<char>) -> (r: Result<ZettelHeader, String>)
    ensures
        match r {
            Ok(h) => parse_block(block@, 0, empty_meta()) == Ok::<MetaModel, Seq<char>>(h@),
            Err(l) => parse_block(block@, 0, empty_meta()) == Err::<MetaModel, Seq<char>>(l@),
        },
{
    let mut p: usize = 0;
    let mut hdr = ZettelHeader { title: None, extra: Vec::new() };
    proof {
        assert(hdr@.extra =~= empty_meta().extra);
    }
    loop
        invariant
            p <= block@.len(),
            parse_block(block@, 0, empty_meta()) == parse_block(block@, p as int, hdr@),
        decreases block@.len() - p,
    {
        if p >= block.len() {
            return Ok(hdr);
        }
        let le = match find_char(block, '\n', p) {
            Some(k) => k,
            None => block.len(),
        };
        proof {
            assert(le as int == line_end(block@, p as int));
        }
        let line = subvec(block, p, le);
        let nx = if le < block.len() {
            le + 1
        } else {
            block.len()
        };
        match parse_line_exec(&line) {
            LineToken::Bad => {
                return Err(string_of(&line));
            },
            LineToken::Blank => {
                p = nx;
            },
            LineToken::Pair(k, v) => {
                let ghost before = hdr@;
                let is_title = str_eq(k.as_str(), "title");
                proof {
                    lemma_title_key();
                }
                if is_title {
                    if hdr.title.is_some() {
                        return Err(string_of(&line));
                    }
                    hdr.title = Some(v);
                    proof {
                        assert(meta_step(before, line@, k@, v@) == Ok::<MetaModel, Seq<char>>(
                            hdr@,
                        ));
                    }
                } else {
                    if extras_have_key(&hdr.extra, k.as_str()) {
                        return Err(string_of(&line));
                    }
                    let ghost oldextra = hdr.extra.deep_view();
                    hdr.extra.push(MetaField { key: k, value: v });
                    proof {
                        assert(hdr.extra.deep_view() =~= oldextra.push(
                            (hdr.extra@.last().key@, hdr.extra@.last().value@),
                        ));
                        assert(meta_step(before, line@, hdr.extra@.last().key@,
                        hdr.extra@.last().value@) == Ok::<MetaModel, Seq<char>>(hdr@));
                    }
                }
                p = nx;
            },
        }
    }
}

/// Decodes the raw text of a note file into its metadata and body.
///
/// A file whose first line is no delimiter decodes to default metadata and
/// the whole text as body; a file that opens a block and never closes it, or
/// whose block holds an unreadable or repeated line, is malformed and the
/// error carries the offending text.
pub fn decode(text: &str) -> (r: Result<(ZettelHeader, String), String>)
    ensures
        match r {
            Ok(p) => spec_decode(text@) == Ok::<(MetaModel, Seq<char>), Seq<char>>((p.0@, p.1@)),
            Err(l) => spec_decode(text@) == Err::<(MetaModel, Seq<char>), Seq<char>>(l@),
        },
{
    let v = chars_of(text);
    let le0 = match find_char(&v, '\n', 0) {
        Some(k) => k,
        None => v.len(),
    };
    proof {
        assert(le0 as int == line_end(text@, 0));
    }
    let opened = le0 == 3 && v[0] == '+' && v[1] == '+' && v[2] == '+';
    proof {
        if opened {
            assert(text@.subrange(0, 3) =~= delim());
        } else {
            if le0 != 3 {
                assert(text@.subrange(0, le0 as int).len() != delim().len());
            } else {
                assert(text@.subrange(0, 3).len() == delim().len());
                assert(!(text@.subrange(0, 3) =~= delim()));
            }
        }
        assert(opened == is_delim_line(text@, 0));
    }
    if !opened {
        let hdr = ZettelHeader { title: None, extra: Vec::new() };
        proof {
            assert(hdr@.extra =~= empty_meta().extra);
            assert(hdr@ == empty_meta());
        }
        return Ok((hdr, String::from_str(text)));
    }
    let h0 = if le0 < v.len() {
        le0 + 1
    } else {
        v.len()
    };
    proof {
        assert(h0 as int == next_line(text@, 0));
    }
    let mut p = h0;
    let mut close: Option<usize> = None;
    loop
        invariant_except_break
            close is None,
        invariant
            h0 <= p <= v@.len(),
            v@ == text@,
            find_close(text@, h0 as int) == find_close(text@, p as int),
        ensures
            v@ == text@,
            match close {
                Some(cp) => h0 <= cp < v@.len() && find_close(text@, h0 as int) == Some(
                    cp as int,
                ) && is_delim_line(text@, cp as int),
                None => find_close(text@, h0 as int) is None,
            },
        decreases v@.len() - p,
    {
        if p >= v.len() {
            break ;
        }
        let le = match find_char(&v, '\n', p) {
            Some(k) => k,
            None => v.len(),
        };
        proof {
            assert(le as int == line_end(text@, p as int));
        }
        let here = le - p == 3 && v[p] == '+' && v[p + 1] == '+' && v[p + 2] == '+';
        proof {
            if here {
                assert(text@.subrange(p as int, le as int) =~= delim());
            } else {
                if le - p != 3 {
                    assert(text@.subrange(p as int, le as int).len() != delim().len());
                } else {
                    assert(!(text@.subrange(p as int, le as int) =~= delim()));
                }
            }
            assert(here == is_delim_line(text@, p as int));
        }
        if here {
            close = Some(p);
            break ;
        }
        p = if le < v.len() {
            le + 1
        } else {
            v.len()
        };
    }
    match close {
        None => Err(string_range(&v, h0, v.len())),
        Some(cp) => {
            proof {
                assert(find_close(text@, h0 as int) == Some(cp as int));
            }
            let block = subvec(&v, h0, cp);
            match parse_block_exec(&block) {
                Err(l) => Err(l),
                Ok(h) => {
                    proof {
                        crate::text::lemma_first_at(text@, '\n', cp as int);
                        assert(text@.subrange(cp as int, line_end(text@, cp as int))
                            == delim());
                        assert(line_end(text@, cp as int) == cp + 3);
                    }
                    let bstart = if cp + 3 < v.len() {
                        cp + 4
                    } else {
                        v.len()
                    };
                    let body = string_range(&v, bstart, v.len());
                    Ok((h, body))
                },
            }
        },
    }
}

// ---------------------------------------------------------------------------
// Executable encoding
// ---------------------------------------------------------------------------

pub proof fn lemma_escape_push(s: Seq<char>, c: char)
    ensures
        escape(s.push(c)) == escape(s) + escape_char(c),
    decreases s.len(),
{
    if s.len() == 0 {
        assert(s.push(c).drop_first() =~= s);
        assert(escape(s.push(c)) =~= escape(s) + escape_char(c));
    } else {
        assert(s.push(c).drop_first() =~= s.drop_first().push(c));
        lemma_escape_push(s.drop_first(), c);
        assert(escape(s.push(c)) =~= escape(s) + escape_char(c));
    }
}

pub proof fn lemma_kv_lines_snoc(x: Seq<(Seq<char>, Seq<char>)>, f: (Seq<char>, Seq<char>))
    ensures
        kv_lines(x.push(f)) == kv_lines(x) + kv_line(f.0, f.1),
    decreases x.len(),
{
    if x.len() == 0 {
        assert(x.push(f).drop_first() =~= x);
        assert(kv_lines(x.push(f)) =~= kv_lines(x) + kv_line(f.0, f.1));
    } else {
        assert(x.push(f).drop_first() =~= x.drop_first().push(f));
        lemma_kv_lines_snoc(x.drop_first(), f);
        assert(kv_lines(x.push(f)) =~= kv_lines(x) + kv_line(f.0, f.1));
    }
}

fn push_kv(out: &mut Vec<char>, k: &Vec<char>, v: &Vec<char>)
    ensures
        final(out)@ == old(out)@ + kv_line(k@, v@),
{
    let ghost base = out@;
    let mut j: usize = 0;
    while j < k.len()
        invariant
            j <= k@.len(),
            out@ == base + k@.subrange(0, j as int),
        decreases k@.len() - j,
    {
        out.push(k[j]);
        j = j + 1;
        proof {
            assert(out@ =~= base + k@.subrange(0, j as int));
        }
    }
    proof {
        assert(k@.subrange(0, k@.len() as int) =~= k@);
    }
    out.push(' ');
    out.push('=');
    out.push(' ');
    out.push('"');
    let ghost mid = base + k@ + seq![' ', '=', ' ', '"'];
    proof {
        assert(out@ =~= mid + escape(v@.subrange(0, 0)));
    }
    let mut i: usize = 0;
    while i < v.len()
        invariant
            i <= v@.len(),
            out@ == mid + escape(v@.subrange(0, i as int)),
        decreases v@.len() - i,
    {
        let c = v[i];
        if c == '\\' {
            out.push('\\');
            out.push('\\');
        } else if c == '"' {
            out.push('\\');
            out.push('"');
        } else if c == '\n' {
            out.push('\\');
            out.push('n');
        } else {
            out.push(c);
        }
        proof {
            lemma_escape_push(v@.subrange(0, i as int), v@[i as int]);
            assert(v@.subrange(0, i + 1) =~= v@.subrange(0, i as int).push(v@[i as int]));
            assert(out@ =~= mid + escape(v@.subrange(0, i + 1)));
        }
        i = i + 1;
    }
    out.push('"');
    out.push('\n');
    proof {
        assert(v@.subrange(0, v@.len() as int) =~= v@);
        assert(out@ =~= old(out)@ + kv_line(k@, v@));
    }
}

/// Encodes metadata and body back into the text of a note file: the opening
/// delimiter line, one `key = "value"` line per field (title first), the
/// closing delimiter line, then the body verbatim.
pub fn encode(h: &ZettelHeader, body: &str) -> (r: String)
    ensures
        r@ == spec_encode(h@, body@),
{
    let mut out: Vec<char> = Vec::new();
    out.push('+');
    out.push('+');
    out.push('+');
    out.push('\n');
    let ghost pre = delim() + seq!['\n'];
    proof {
        assert(out@ =~= pre);
    }
    let ghost fields = fields_of(h@);
    let ghost extradv = h.extra.deep_view();
    match &h.title {
        Some(t) => {
            let tk = chars_of("title");
            let tv = chars_of(t.as_str());
            proof {
                lemma_title_key();
            }
            push_kv(&mut out, &tk, &tv);
        },
        None => {},
    }
    let ghost head = out@;
    proof {
        match h@.title {
            Some(tt) => {
                assert(fields.drop_first() =~= extradv);
                assert(head =~= pre + kv_line(title_key(), tt));
            },
            None => {
                assert(fields =~= extradv);
            },
        }
        assert(extradv.subrange(0, 0) =~= Seq::<(Seq<char>, Seq<char>)>::empty());
        assert(head + kv_lines(extradv.subrange(0, 0)) =~= head);
    }
    let mut i: usize = 0;
    while i < h.extra.len()
        invariant
            i <= h.extra@.len(),
            extradv == h.extra.deep_view(),
            out@ == head + kv_lines(extradv.subrange(0, i as int)),
        decreases h.extra@.len() - i,
    {
        let kc = chars_of(h.extra[i].key.as_str());
        let vc = chars_of(h.extra[i].value.as_str());
        push_kv(&mut out, &kc, &vc);
        proof {
            lemma_kv_lines_snoc(extradv.subrange(0, i as int), extradv[i as int]);
            assert(extradv.subrange(0, i + 1) =~= extradv.subrange(0, i as int).push(
                extradv[i as int],
            ));
            assert(out@ =~= head + kv_lines(extradv.subrange(0, i + 1)));
        }
        i = i + 1;
    }
    proof {
        assert(extradv.subrange(0, extradv.len() as int) =~= extradv);
        match h@.title {
            Some(tt) => {
                assert(kv_lines(fields) =~= kv_line(title_key(), tt) + kv_lines(extradv));
                assert(out@ =~= pre + kv_lines(fields));
            },
            None => {
                assert(out@ =~= pre + kv_lines(fields));
            },
        }
    }
    out.push('+');
    out.push('+');
    out.push('+');
    out.push('\n');
    let mut s = string_of(&out);
    s.append(body);
    proof {
        assert(s@ =~= spec_encode(h@, body@));
    }
    s
}

// ---------------------------------------------------------------------------
// Laws of the codec
// ---------------------------------------------------------------------------

/// A file with no leading delimiter line decodes to default metadata and a
/// body equal to the entire file content.
pub proof fn lemma_decode_no_header(s: Seq<char>)
    requires
        !is_delim_line(s, 0),
    ensures
        spec_decode(s) == Ok::<(MetaModel, Seq<char>), Seq<char>>((empty_meta(), s)),
{
}

/// A file whose first line is the delimiter but which never closes the block
/// is malformed, not a partial result.
pub proof fn lemma_decode_unclosed(s: Seq<char>)
    requires
        is_delim_line(s, 0),
        find_close(s, next_line(s, 0)) is None,
    ensures
        spec_decode(s) == Err::<(MetaModel, Seq<char>), Seq<char>>(
            s.subrange(next_line(s, 0), s.len() as int),
        ),
{
}

proof fn lemma_skip_spaces(s: Seq<char>, i: int)
    requires
        0 <= i <= s.len(),
    ensures
        ({
            let r = skip_spaces(s, i);
            &&& i <= r <= s.len()
            &&& forall|m: int| i <= m < r ==> is_space(#[trigger] s[m])
            &&& r < s.len() ==> !is_space(s[r])
        }),
    decreases s.len() - i,
{
    if i < s.len() && is_space(s[i]) {
        lemma_skip_spaces(s, i + 1);
    }
}

proof fn lemma_key_end(s: Seq<char>, i: int)
    requires
        0 <= i <= s.len(),
    ensures
        ({
            let r = key_end(s, i);
            &&& i <= r <= s.len()
            &&& forall|m: int| i <= m < r ==> valid_key_char(#[trigger] s[m])
            &&& r < s.len() ==> !valid_key_char(s[r])
        }),
    decreases s.len() - i,
{
    if i < s.len() && valid_key_char(s[i]) {
        lemma_key_end(s, i + 1);
    }
}

proof fn lemma_trim_end(s: Seq<char>, e: int)
    requires
        0 <= e <= s.len(),
    ensures
        ({
            let r = trim_end(s, e);
            &&& 0 <= r <= e
            &&& forall|m: int| r <= m < e ==> is_space(#[trigger] s[m])
            &&& r > 0 ==> !is_space(s[r - 1])
        }),
    decreases e,
{
    if e > 0 && is_space(s[e - 1]) {
        lemma_trim_end(s, e - 1);
    }
}

/// The escaped form of a value holds no newline and no unescaped quote; in
/// particular every escape step emits no newline.
proof fn lemma_escape_no_newline(v: Seq<char>)
    ensures
        forall|m: int| 0 <= m < escape(v).len() ==> (#[trigger] escape(v)[m]) != '\n',
    decreases v.len(),
{
    if v.len() > 0 {
        lemma_escape_no_newline(v.drop_first());
        let c = v[0];
        let ec = escape_char(c);
        assert forall|m: int| 0 <= m < escape(v).len() implies (#[trigger] escape(v)[m])
            != '\n' by {
            assert(escape(v) == ec + escape(v.drop_first()));
            if m < ec.len() {
                assert(escape(v)[m] == ec[m]);
            } else {
                assert(escape(v)[m] == escape(v.drop_first())[m - ec.len()]);
            }
        }
    }
}

/// Reading a quoted value back: the escaped form of `v` followed by a quote
/// parses to exactly `v`.
proof fn lemma_parse_quoted_escaped(s: Seq<char>, i: int, acc: Seq<char>, v: Seq<char>)
    requires
        0 <= i,
        i + escape(v).len() + 1 <= s.len(),
        s.subrange(i, i + escape(v).len() + 1) == escape(v) + seq!['"'],
    ensures
        parse_quoted(s, i, acc) == Some((acc + v, i + escape(v).len() + 1)),
    decreases v.len(),
{
    let ev = escape(v);
    if v.len() == 0 {
        assert(s[i] == (ev + seq!['"'])[0]);
        assert(s[i] == '"');
        assert(acc + v =~= acc);
    } else {
        let c = v[0];
        let v2 = v.drop_first();
        assert(escape(v) == escape_char(c) + escape(v2));
        let ec = escape_char(c);
        assert forall|j: int| 0 <= j < escape(v2).len() + 1 implies s[i + ec.len() + j] == (escape(
            v2,
        ) + seq!['"'])[j] by {
            assert(s[i + ec.len() + j] == s.subrange(i, i + escape(v).len() + 1)[ec.len() + j]);
            assert((ev + seq!['"'])[ec.len() + j] == (escape(v2) + seq!['"'])[j]);
        }
        assert(s.subrange(i + ec.len(), i + escape(v).len() + 1) =~= escape(v2) + seq!['"']);
        assert(s[i] == (ev + seq!['"'])[0]);
        if c == '\\' || c == '"' || c == '\n' {
            assert(s[i] == '\\');
            assert(s[i + 1] == (ev + seq!['"'])[1]);
            assert(unescape_code(s[i + 1]) == Some(c));
            lemma_parse_quoted_escaped(s, i + 2, acc.push(c), v2);
            assert(acc.push(c) + v2 =~= acc + v);
        } else {
            assert(s[i] == c);
            lemma_parse_quoted_escaped(s, i + 1, acc.push(c), v2);
            assert(acc.push(c) + v2 =~= acc + v);
        }
    }
}

/// An encoded line, seen on its own without its newline, parses back to its
/// key/value pair.
proof fn lemma_parse_kv_body(k: Seq<char>, v: Seq<char>)
    requires
        valid_key(k),
    ensures
        parse_line(kv_body(k, v)) == LineShape::Pair(k, v),
{
    let line = kv_body(k, v);
    let kl = k.len() as int;
    let el = escape(v).len() as int;
    let ll = line.len() as int;
    assert(ll == kl + 4 + el + 1);
    assert forall|m: int| 0 <= m < kl implies line[m] == k[m] by {}
    assert(line[kl] == ' ');
    assert(line[kl + 1] == '=');
    assert(line[kl + 2] == ' ');
    assert(line[kl + 3] == '"');
    assert(line[ll - 1] == '"');
    // leading spaces: none, the first character is a key character
    lemma_skip_spaces(line, 0);
    assert(valid_key_char(k[0]));
    assert(!is_space(line[0]));
    let b = skip_spaces(line, 0);
    assert(b == 0);
    // trailing spaces: none, the last character is the closing quote
    lemma_trim_end(line, ll);
    let e = trim_end(line, ll);
    assert(e == ll);
    // the key runs to exactly kl
    lemma_key_end(line, 0);
    let ke = key_end(line, 0);
    assert(!valid_key_char(' '));
    if ke < kl {
        assert(valid_key_char(line[ke]));
        assert(false);
    }
    if ke > kl {
        assert(valid_key_char(line[kl]));
        assert(false);
    }
    assert(ke == kl);
    // one space, the equals sign, one space, the opening quote
    lemma_skip_spaces(line, kl);
    let a1 = skip_spaces(line, kl);
    assert(!is_space(line[kl + 1]));
    if a1 > kl + 1 {
        assert(is_space(line[kl + 1]));
        assert(false);
    }
    assert(a1 == kl + 1);
    lemma_skip_spaces(line, kl + 2);
    let a2 = skip_spaces(line, kl + 2);
    assert(!is_space(line[kl + 3]));
    if a2 > kl + 3 {
        assert(is_space(line[kl + 3]));
        assert(false);
    }
    assert(a2 == kl + 3);
    // the value reads back
    assert(line.subrange(kl + 4, kl + 4 + el + 1) =~= escape(v) + seq!['"']);
    lemma_parse_quoted_escaped(line, kl + 4, Seq::empty(), v);
    assert(Seq::empty() + v =~= v);
    assert(line.subrange(0, kl) =~= k);
}

/// Inside a larger text, an encoded line starting at `p` spans exactly up to
/// its newline.
proof fn lemma_kv_line_at(s: Seq<char>, p: int, k: Seq<char>, v: Seq<char>)
    requires
        valid_key(k),
        0 <= p,
        p + kv_line(k, v).len() <= s.len(),
        s.subrange(p, p + kv_line(k, v).len()) == kv_line(k, v),
    ensures
        line_end(s, p) == p + kv_body(k, v).len(),
        next_line(s, p) == p + kv_line(k, v).len(),
        s.subrange(p, line_end(s, p)) == kv_body(k, v),
        parse_line(s.subrange(p, line_end(s, p))) == LineShape::Pair(k, v),
    decreases 0int,
{
    let body = kv_body(k, v);
    let bl = body.len() as int;
    lemma_escape_no_newline(v);
    assert forall|m: int| p <= m < p + bl implies #[trigger] s[m] != '\n' by {
        assert(s[m] == kv_line(k, v)[m - p]);
        assert(kv_line(k, v)[m - p] == body[m - p]);
        let j = m - p;
        if j < k.len() {
            assert(body[j] == k[j]);
            assert(valid_key_char(k[j]));
        } else if j < k.len() + 4 {
        } else if j < k.len() + 4 + escape(v).len() {
            assert(body[j] == escape(v)[j - k.len() - 4]);
        } else {
            assert(body[j] == '"');
        }
    }
    assert(s[p + bl] == kv_line(k, v)[bl]);
    assert(s[p + bl] == '\n');
    crate::text::lemma_first_at(s, '\n', p);
    let r = line_end(s, p);
    match first_at(s, '\n', p) {
        Some(q) => {
            if q < p + bl {
                assert(s[q] != '\n');
                assert(false);
            }
            if q > p + bl {
                assert(s[p + bl] != '\n');
                assert(false);
            }
        },
        None => {
            assert(s[p + bl] != '\n');
            assert(false);
        },
    }
    assert(line_end(s, p) == p + bl);
    assert(s.subrange(p, p + bl) =~= body);
    lemma_parse_kv_body(k, v);
}

/// Folding one parsed field into gathered metadata, as the encoder lays the
/// fields out.
pub open spec fn add_field(m: MetaModel, k: Seq<char>, v: Seq<char>) -> MetaModel {
    if k == title_key() {
        MetaModel { title: Some(v), extra: m.extra }
    } else {
        MetaModel { title: m.title, extra: m.extra.push((k, v)) }
    }
}

pub open spec fn add_fields(m: MetaModel, fields: Seq<(Seq<char>, Seq<char>)>) -> MetaModel
    decreases fields.len(),
{
    if fields.len() == 0 {
        m
    } else {
        add_fields(add_field(m, fields[0].0, fields[0].1), fields.drop_first())
    }
}

/// A block consisting exactly of encoded lines parses back to the fields it
/// was written from.
proof fn lemma_parse_block_fields(
    s: Seq<char>,
    p: int,
    fields: Seq<(Seq<char>, Seq<char>)>,
    acc: MetaModel,
)
    requires
        0 <= p <= s.len(),
        s.subrange(p, s.len() as int) == kv_lines(fields),
        forall|i: int| 0 <= i < fields.len() ==> valid_key((#[trigger] fields[i]).0),
        forall|i: int, j: int|
            0 <= i < j < fields.len() ==> (#[trigger] fields[i]).0 != (#[trigger] fields[j]).0,
        forall|i: int| 0 <= i < fields.len() ==> !has_key(acc.extra, (#[trigger] fields[i]).0),
        (exists|i: int|
            0 <= i < fields.len() && (#[trigger] fields[i]).0 == title_key()) ==> acc.title
            is None,
    ensures
        parse_block(s, p, acc) == Ok::<MetaModel, Seq<char>>(add_fields(acc, fields)),
    decreases fields.len(),
{
    if fields.len() == 0 {
        assert(s.len() - p == kv_lines(fields).len());
        assert(p == s.len());
    } else {
        let f0 = fields[0];
        let rest = fields.drop_first();
        let l0 = kv_line(f0.0, f0.1);
        assert(kv_lines(fields) == l0 + kv_lines(rest));
        assert(s.len() - p == kv_lines(fields).len());
        assert(s.subrange(p, p + l0.len()) =~= l0);
        lemma_kv_line_at(s, p, f0.0, f0.1);
        let line = s.subrange(p, line_end(s, p));
        let m1 = add_field(acc, f0.0, f0.1);
        assert(meta_step(acc, line, f0.0, f0.1) == Ok::<MetaModel, Seq<char>>(m1)) by {
            if f0.0 == title_key() {
                assert(acc.title is None);
            } else {
                assert(!has_key(acc.extra, f0.0));
            }
        }
        let p2 = next_line(s, p);
        assert forall|j: int| 0 <= j < kv_lines(rest).len() implies s[p2 + j] == kv_lines(rest)[j] by {
            assert(s[p2 + j] == s.subrange(p, s.len() as int)[(l0.len() + j) as int]);
            assert(kv_lines(fields)[(l0.len() + j) as int] == kv_lines(rest)[j]);
        }
        assert(s.subrange(p2, s.len() as int) =~= kv_lines(rest));
        assert forall|i: int| 0 <= i < rest.len() implies !has_key(
            m1.extra,
            (#[trigger] rest[i]).0,
        ) by {
            assert(rest[i] == fields[i + 1]);
            assert(fields[i + 1].0 != f0.0);
            assert(!has_key(acc.extra, fields[i + 1].0));
            if f0.0 == title_key() {
                assert(m1.extra == acc.extra);
            } else {
                assert(m1.extra == acc.extra.push((f0.0, f0.1)));
                assert forall|q: int| 0 <= q < m1.extra.len() implies (#[trigger] m1.extra[q]).0
                    != rest[i].0 by {
                    if q < acc.extra.len() {
                        assert(m1.extra[q] == acc.extra[q]);
                    } else {
                        assert(m1.extra[q] == (f0.0, f0.1));
                    }
                }
            }
        }
        if exists|i: int| 0 <= i < rest.len() && (#[trigger] rest[i]).0 == title_key() {
            let i = choose|i: int| 0 <= i < rest.len() && (#[trigger] rest[i]).0 == title_key();
            assert(fields[i + 1].0 == title_key());
            assert(acc.title is None);
            assert(f0.0 != title_key());
            assert(m1.title is None);
        }
        lemma_parse_block_fields(s, p2, rest, m1);
    }
}

/// The fields the encoder writes for a well-formed header rebuild exactly
/// that header.
proof fn lemma_add_fields_plain(m: MetaModel, plain: Seq<(Seq<char>, Seq<char>)>)
    requires
        forall|i: int| 0 <= i < plain.len() ==> (#[trigger] plain[i]).0 != title_key(),
    ensures
        add_fields(m, plain) == (MetaModel { title: m.title, extra: m.extra + plain }),
    decreases plain.len(),
{
    if plain.len() == 0 {
        assert(m.extra + plain =~= m.extra);
    } else {
        let f0 = plain[0];
        let m1 = add_field(m, f0.0, f0.1);
        lemma_add_fields_plain(m1, plain.drop_first());
        assert(m.extra.push((f0.0, f0.1)) + plain.drop_first() =~= m.extra + plain);
    }
}

proof fn lemma_valid_title_key()
    ensures
        valid_key(title_key()),
{
    assert forall|i: int| 0 <= i < title_key().len() implies valid_key_char(
        #[trigger] title_key()[i],
    ) by {
        if i == 0 {
            assert(title_key()[0] == 't');
        } else if i == 1 {
            assert(title_key()[1] == 'i');
        } else if i == 2 {
            assert(title_key()[2] == 't');
        } else if i == 3 {
            assert(title_key()[3] == 'l');
        } else {
            assert(title_key()[4] == 'e');
        }
    }
}

/// Skipping the encoded lines of a block: none of them is a delimiter line,
/// so the search for the closing delimiter passes them all.
proof fn lemma_find_close_skip(s: Seq<char>, p: int, fields: Seq<(Seq<char>, Seq<char>)>)
    requires
        0 <= p,
        p + kv_lines(fields).len() <= s.len(),
        s.subrange(p, p + kv_lines(fields).len()) == kv_lines(fields),
        forall|i: int| 0 <= i < fields.len() ==> valid_key((#[trigger] fields[i]).0),
    ensures
        find_close(s, p) == find_close(s, p + kv_lines(fields).len()),
    decreases fields.len(),
{
    if fields.len() > 0 {
        let f0 = fields[0];
        let rest = fields.drop_first();
        let l0 = kv_line(f0.0, f0.1);
        assert(kv_lines(fields) == l0 + kv_lines(rest));
        assert(s.subrange(p, p + l0.len()) =~= l0);
        lemma_kv_line_at(s, p, f0.0, f0.1);
        let body = kv_body(f0.0, f0.1);
        assert(!is_delim_line(s, p)) by {
            assert(s.subrange(p, line_end(s, p)) == body);
            if body == delim() {
                assert(body[0] == f0.0[0]);
                assert(valid_key_char(f0.0[0]));
                assert(delim()[0] == '+');
                assert(!valid_key_char('+'));
                assert(false);
            }
        }
        let p2 = next_line(s, p);
        assert forall|j: int| 0 <= j < kv_lines(rest).len() implies s[p2 + j] == kv_lines(rest)[j] by {
            assert(s[p2 + j] == s.subrange(p, p + kv_lines(fields).len())[(l0.len() + j) as int]);
            assert(kv_lines(fields)[(l0.len() + j) as int] == kv_lines(rest)[j]);
        }
        assert(s.subrange(p2, p2 + kv_lines(rest).len()) =~= kv_lines(rest));
        lemma_find_close_skip(s, p2, rest);
        assert(find_close(s, p) == find_close(s, p2));
    }
}

/// Round trip of the codec: encoding any well-formed metadata with any body
/// and decoding the result gives back exactly that metadata and body. The
/// header block the encoder writes always closes, so no body content can
/// disturb it.
pub proof fn lemma_encode_decode(m: MetaModel, body: Seq<char>)
    requires
        meta_wf(m),
    ensures
        spec_decode(spec_encode(m, body)) == Ok::<(MetaModel, Seq<char>), Seq<char>>((m, body)),
{
    let fields = fields_of(m);
    let h = kv_lines(fields);
    let s = spec_encode(m, body);
    let hl = h.len() as int;
    lemma_valid_title_key();
    assert forall|i: int| 0 <= i < fields.len() implies valid_key((#[trigger] fields[i]).0) by {
        match m.title {
            Some(t) => {
                if i == 0 {
                    assert(fields[0].0 == title_key());
                } else {
                    assert(fields[i] == m.extra[i - 1]);
                }
            },
            None => {
                assert(fields[i] == m.extra[i]);
            },
        }
    }
    // the first line is the opening delimiter
    assert(s[0] == '+');
    assert(s[1] == '+');
    assert(s[2] == '+');
    assert(s[3] == '\n');
    crate::text::lemma_first_at(s, '\n', 0);
    match first_at(s, '\n', 0) {
        Some(q) => {
            if q < 3 {
                assert(s[q] == delim()[q]);
                assert(false);
            }
            if q > 3 {
                assert(s[3] != '\n');
                assert(false);
            }
        },
        None => {
            assert(s[3] != '\n');
            assert(false);
        },
    }
    assert(line_end(s, 0) == 3);
    assert(s.subrange(0, 3) =~= delim());
    assert(is_delim_line(s, 0));
    assert(next_line(s, 0) == 4);
    // the search for the closing delimiter skips the field lines
    assert(s.subrange(4, 4 + hl) =~= h);
    lemma_find_close_skip(s, 4, fields);
    // and stops at the closing delimiter line
    let cp = 4 + hl;
    assert(s[cp] == '+');
    assert(s[cp + 1] == '+');
    assert(s[cp + 2] == '+');
    assert(s[cp + 3] == '\n');
    crate::text::lemma_first_at(s, '\n', cp);
    match first_at(s, '\n', cp) {
        Some(q) => {
            if q < cp + 3 {
                assert(s[q] == delim()[q - cp]);
                assert(false);
            }
            if q > cp + 3 {
                assert(s[cp + 3] != '\n');
                assert(false);
            }
        },
        None => {
            assert(s[cp + 3] != '\n');
            assert(false);
        },
    }
    assert(line_end(s, cp) == cp + 3);
    assert(s.subrange(cp, cp + 3) =~= delim());
    assert(is_delim_line(s, cp));
    assert(find_close(s, cp) == Some(cp));
    assert(find_close(s, 4) == Some(cp));
    // the block between the delimiters parses back to the header
    let block = s.subrange(4, cp);
    assert(block =~= h);
    assert(block.subrange(0, block.len() as int) =~= block);
    assert forall|i: int, j: int|
        0 <= i < j < fields.len() implies (#[trigger] fields[i]).0 != (#[trigger] fields[j]).0 by {
        match m.title {
            Some(t) => {
                if i == 0 {
                    assert(fields[j] == m.extra[j - 1]);
                    assert(m.extra[j - 1].0 != title_key());
                } else {
                    assert(fields[i] == m.extra[i - 1]);
                    assert(fields[j] == m.extra[j - 1]);
                }
            },
            None => {
                assert(fields[i] == m.extra[i]);
                assert(fields[j] == m.extra[j]);
            },
        }
    }
    assert forall|i: int| 0 <= i < fields.len() implies !has_key(
        empty_meta().extra,
        (#[trigger] fields[i]).0,
    ) by {}
    lemma_parse_block_fields(block, 0, fields, empty_meta());
    // and rebuilds exactly the encoded metadata
    match m.title {
        Some(t) => {
            assert(fields.drop_first() =~= m.extra);
            assert(add_fields(empty_meta(), fields) == add_fields(
                MetaModel { title: Some(t), extra: Seq::empty() },
                m.extra,
            ));
            lemma_add_fields_plain(MetaModel { title: Some(t), extra: Seq::empty() }, m.extra);
            assert(Seq::<(Seq<char>, Seq<char>)>::empty() + m.extra =~= m.extra);
        },
        None => {
            lemma_add_fields_plain(empty_meta(), fields);
            assert(Seq::<(Seq<char>, Seq<char>)>::empty() + m.extra =~= m.extra);
        },
    }
    assert(add_fields(empty_meta(), fields) == m);
    // the body after the closing delimiter line is untouched
    assert(next_line(s, cp) == cp + 4);
    assert(s.subrange(cp + 4, s.len() as int) =~= body);
}

proof fn lemma_parse_line_valid(line: Seq<char>)
    ensures
        parse_line(line) matches LineShape::Pair(k, v) ==> valid_key(k),
{
    lemma_skip_spaces(line, 0);
    let b = skip_spaces(line, 0);
    lemma_key_end(line, b);
    let ke = key_end(line, b);
    if parse_line(line) is Pair {
        let k = line.subrange(b, ke);
        assert forall|i: int| 0 <= i < k.len() implies valid_key_char(#[trigger] k[i]) by {
            assert(k[i] == line[b + i]);
        }
    }
}

/// Whatever a block parses to is well-formed metadata: valid, distinct
/// extra keys, none of them the title key.
proof fn lemma_parse_block_wf(s: Seq<char>, p: int, acc: MetaModel)
    requires
        0 <= p <= s.len(),
        meta_wf(acc),
    ensures
        parse_block(s, p, acc) matches Ok(m) ==> meta_wf(m),
    decreases s.len() - p,
{
    if p < s.len() {
        crate::text::lemma_first_at(s, '\n', p);
        let line = s.subrange(p, line_end(s, p));
        match parse_line(line) {
            LineShape::Bad => {},
            LineShape::Blank => {
                lemma_parse_block_wf(s, next_line(s, p), acc);
            },
            LineShape::Pair(k, v) => {
                lemma_parse_line_valid(line);
                match meta_step(acc, line, k, v) {
                    Err(_) => {},
                    Ok(m1) => {
                        assert(meta_wf(m1)) by {
                            if k != title_key() {
                                assert(forall|i: int|
                                    0 <= i < acc.extra.len() ==> (#[trigger] acc.extra[i]).0
                                        != k);
                                assert forall|i: int|
                                    0 <= i < m1.extra.len() implies valid_key(
                                    (#[trigger] m1.extra[i]).0,
                                ) && m1.extra[i].0 != title_key() by {
                                    if i < acc.extra.len() {
                                        assert(m1.extra[i] == acc.extra[i]);
                                    } else {
                                        assert(m1.extra[i] == (k, v));
                                    }
                                }
                                assert forall|i: int, j: int|
                                    0 <= i < j < m1.extra.len() implies (#[trigger] m1.extra[i]).0
                                    != (#[trigger] m1.extra[j]).0 by {
                                    if j < acc.extra.len() {
                                    } else {
                                        assert(m1.extra[j] == (k, v));
                                        assert(m1.extra[i] == acc.extra[i]);
                                    }
                                }
                            }
                        }
                        lemma_parse_block_wf(s, next_line(s, p), m1);
                    },
                }
            },
        }
    }
}

/// Whatever a whole file decodes to is well-formed metadata.
pub proof fn lemma_decode_wf(s: Seq<char>)
    ensures
        spec_decode(s) matches Ok(p) ==> meta_wf(p.0),
{
    if is_delim_line(s, 0) {
        let h0 = next_line(s, 0);
        crate::text::lemma_first_at(s, '\n', 0);
        match find_close(s, h0) {
            None => {},
            Some(cp) => {
                lemma_find_close_in_range(s, h0);
                lemma_parse_block_wf(s.subrange(h0, cp), 0, empty_meta());
            },
        }
    }
}

proof fn lemma_find_close_in_range(s: Seq<char>, p: int)
    requires
        0 <= p <= s.len(),
    ensures
        find_close(s, p) matches Some(c) ==> p <= c <= s.len(),
    decreases s.len() - p,
{
    if p < s.len() && !is_delim_line(s, p) {
        crate::text::lemma_first_at(s, '\n', p);
        lemma_find_close_in_range(s, next_line(s, p));
    }
}

/// Metadata survives a save: whatever decodes from some file text, among it
/// every key the codec does not interpret, re-decodes identically from the
/// text the encoder writes back.
pub proof fn lemma_save_load_stable(s: Seq<char>, m: MetaModel, body: Seq<char>)
    requires
        spec_decode(s) == Ok::<(MetaModel, Seq<char>), Seq<char>>((m, body)),
    ensures
        spec_decode(spec_encode(m, body)) == Ok::<(MetaModel, Seq<char>), Seq<char>>((m, body)),
{
    lemma_decode_wf(s);
    lemma_encode_decode(m, body);
}

} // verus!
