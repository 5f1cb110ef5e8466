//! Character-level utilities shared by the codec, the link extractor and the
//! slip-box queries. Text is handled as `Vec<char>` internally so that every
//! scan is verified against the `Seq<char>` view of the originating string.

use vstd::prelude::*;
use vstd::std_specs::iter::IteratorSpec;

verus! {

broadcast use vstd::string::group_string_axioms;

/// The first index at or after `from` holding `c`, if any.
pub open spec fn first_at(s: Seq<char>, c: char, from: int) -> Option<int>
    decreases s.len() - from when 0 <= from <= s.len()
{
    if from >= s.len() {
        None
    } else if s[from] == c {
        Some(from)
    } else {
        first_at(s, c, from + 1)
    }
}

pub proof fn lemma_first_at(s: Seq<char>, c: char, from: int)
    requires
        0 <= from <= s.len(),
    ensures
        match first_at(s, c, from) {
            Some(k) => from <= k < s.len() && s[k] == c
                && forall|m: int| from <= m < k ==> s[m] != c,
            None => forall|m: int| from <= m < s.len() ==> s[m] != c,
        },
    decreases s.len() - from,
{
    if from < s.len() && s[from] != c {
        lemma_first_at(s, c, from + 1);
    }
}

/// Collects the characters of `s`, in order.
pub fn chars_of(s: &str) -> (r: Vec<char>)
    ensures
        r@ == s@,
{
    let mut it = s.chars();
    let mut out: Vec<char> = Vec::new();
    loop
        invariant
            it.obeys_prophetic_iter_laws(),
            it.decrease() is Some,
            out@ + it.remaining() == s@,
        decreases it.decrease()->0,
    {
        match it.next() {
            Some(c) => {
                out.push(c);
                proof {
                    assert(out@ + it.remaining() =~= s@);
                }
            },
            None => {
                proof {
                    assert(out@ =~= s@);
                }
                return out;
            },
        }
    }
}

/// Relies on String::push: appends exactly the one character `c`.
#[verifier::external_body]
fn push_char(s: &mut String, c: char)
    ensures
        final(s)@ == old(s)@.push(c),
{
    s.push(c);
}

/// The string holding `v[from..to]`, in order.
pub fn string_range(v: &Vec<char>, from: usize, to: usize) -> (r: String)
    requires
        from <= to <= v@.len(),
    ensures
        r@ == v@.subrange(from as int, to as int),
{
    let mut out = String::new();
    let mut i: usize = from;
    while i < to
        invariant
            from <= i <= to <= v@.len(),
            out@ == v@.subrange(from as int, i as int),
        decreases to - i,
    {
        push_char(&mut out, v[i]);
        i = i + 1;
        proof {
            assert(out@ =~= v@.subrange(from as int, i as int));
        }
    }
    out
}

/// The string holding all of `v`, in order.
pub fn string_of(v: &Vec<char>) -> (r: String)
    ensures
        r@ == v@,
{
    let r = string_range(v, 0, v.len());
    proof {
        assert(v@.subrange(0, v@.len() as int) =~= v@);
    }
    r
}

/// Whether two strings hold the same characters.
pub fn str_eq(a: &str, b: &str) -> (r: bool)
    ensures
        r == (a@ == b@),
{
    let va = chars_of(a);
    let vb = chars_of(b);
    let r = chars_eq_range(&va, 0, va.len(), &vb, 0, vb.len());
    proof {
        assert(va@.subrange(0, va@.len() as int) =~= va@);
        assert(vb@.subrange(0, vb@.len() as int) =~= vb@);
    }
    r
}

/// Whether `a[af..at]` and `b[bf..bt]` hold the same characters.
pub fn chars_eq_range(
    a: &Vec<char>,
    af: usize,
    at: usize,
    b: &Vec<char>,
    bf: usize,
    bt: usize,
) -> (r: bool)
    requires
        af <= at <= a@.len(),
        bf <= bt <= b@.len(),
    ensures
        r == (a@.subrange(af as int, at as int) == b@.subrange(bf as int, bt as int)),
{
    if at - af != bt - bf {
        proof {
            assert(a@.subrange(af as int, at as int).len() != b@.subrange(
                bf as int,
                bt as int,
            ).len());
        }
        return false;
    }
    let n = at - af;
    let mut i: usize = 0;
    while i < n
        invariant
            af + n == at <= a@.len(),
            bf + n == bt <= b@.len(),
            i <= n,
            forall|m: int| 0 <= m < i ==> a@[af + m] == #[trigger] b@[bf + m],
        decreases n - i,
    {
        if a[af + i] != b[bf + i] {
            proof {
                assert(a@.subrange(af as int, at as int)[i as int] != b@.subrange(
                    bf as int,
                    bt as int,
                )[i as int]);
            }
            return false;
        }
        i = i + 1;
    }
    proof {
        assert forall|j: int| 0 <= j < at - af implies a@.subrange(af as int, at as int)[j]
            == b@.subrange(bf as int, bt as int)[j] by {
            assert(a@[af + j] == b@[bf + j]);
        }
        assert(a@.subrange(af as int, at as int) =~= b@.subrange(bf as int, bt as int));
    }
    true
}

/// A copy of `v[from..to]`.
pub fn subvec(v: &Vec<char>, from: usize, to: usize) -> (r: Vec<char>)
    requires
        from <= to <= v@.len(),
    ensures
        r@ == v@.subrange(from as int, to as int),
{
    let mut out: Vec<char> = Vec::new();
    let mut i: usize = from;
    while i < to
        invariant
            from <= i <= to <= v@.len(),
            out@ == v@.subrange(from as int, i as int),
        decreases to - i,
    {
        out.push(v[i]);
        i = i + 1;
        proof {
            assert(out@ =~= v@.subrange(from as int, i as int));
        }
    }
    out
}

/// The first index at or after `from` where `v` holds `c`, as an index into `v`.
pub fn find_char(v: &Vec<char>, c: char, from: usize) -> (r: Option<usize>)
    requires
        from <= v@.len(),
    ensures
        match r {
            Some(k) => first_at(v@, c, from as int) == Some(k as int) && from <= k < v@.len(),
            None => first_at(v@, c, from as int) is None,
        },
{
    let mut i: usize = from;
    while i < v.len()
        invariant
            from <= i <= v@.len(),
            first_at(v@, c, from as int) == first_at(v@, c, i as int),
        decreases v@.len() - i,
    {
        if v[i] == c {
            return Some(i);
        }
        i = i + 1;
    }
    None
}

/// Whether `n` occurs in `h` starting at offset `off`.
pub open spec fn contains_at(h: Seq<char>, n: Seq<char>, off: int) -> bool {
    0 <= off && off + n.len() <= h.len() && h.subrange(off, off + n.len() as int) == n
}

/// Substring containment: `n` occurs somewhere in `h`.
pub open spec fn contains_sub(h: Seq<char>, n: Seq<char>) -> bool {
    exists|off: int| contains_at(h, n, off)
}

/// Whether the characters of `n` occur contiguously in `h`.
pub fn contains_chars(h: &Vec<char>, n: &Vec<char>) -> (r: bool)
    ensures
        r == contains_sub(h@, n@),
{
    if n.len() > h.len() {
        proof {
            if contains_sub(h@, n@) {
                let off = choose|off: int| contains_at(h@, n@, off);
            }
        }
        return false;
    }
    if n.len() == 0 {
        proof {
            assert(h@.subrange(0, 0) =~= n@);
            assert(contains_at(h@, n@, 0));
        }
        return true;
    }
    let hl = h.len();
    let last = hl - n.len();
    let mut off: usize = 0;
    loop
        invariant
            0 <= off <= last + 1,
            hl == h@.len(),
            1 <= n@.len() <= h@.len(),
            last == h@.len() - n@.len(),
            forall|m: int| 0 <= m < off ==> !contains_at(h@, n@, m),
        decreases last + 1 - off,
    {
        if off > last {
            proof {
                if contains_sub(h@, n@) {
                    let w = choose|w: int| contains_at(h@, n@, w);
                    assert(!contains_at(h@, n@, w));
                }
            }
            return false;
        }
        if chars_eq_range(h, off, off + n.len(), n, 0, n.len()) {
            proof {
                assert(n@.subrange(0, n@.len() as int) =~= n@);
                assert(contains_at(h@, n@, off as int));
            }
            return true;
        }
        proof {
            assert(!contains_at(h@, n@, off as int)) by {
                if contains_at(h@, n@, off as int) {
                    assert(n@.subrange(0, n@.len() as int) =~= n@);
                }
            }
        }
        off = off + 1;
    }
}

/// A copy of a vector of strings, character for character.
pub fn clone_strings(v: &Vec<String>) -> (r: Vec<String>)
    ensures
        r@ == v@,
        r.deep_view() == v.deep_view(),
{
    let mut out: Vec<String> = Vec::new();
    let mut i: usize = 0;
    while i < v.len()
        invariant
            i <= v@.len(),
            out@ == v@.subrange(0, i as int),
        decreases v@.len() - i,
    {
        out.push(v[i].clone());
        i = i + 1;
        proof {
            assert(out@ =~= v@.subrange(0, i as int));
        }
    }
    proof {
        assert(v@.subrange(0, v@.len() as int) =~= v@);
        assert(out.deep_view() =~= v.deep_view());
    }
    out
}

} // verus!
