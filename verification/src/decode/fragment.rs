//! Splitting the content of a text file into the lines that may hold
//! fragments.
use vstd::prelude::*;

use crate::text::{find_char_from, find_from, lemma_find_from, str_to_chars};

verus! {

/// A line without one trailing carriage return.
pub open spec fn strip_cr(l: Seq<char>) -> Seq<char> {
    if l.len() > 0 && l.last() == '\r' {
        l.drop_last()
    } else {
        l
    }
}

/// The lines of `s` from position `i` on, as `str::lines` yields them: each
/// line ends at a `\n`, which is dropped together with a `\r` just before
/// it; a last line without `\n` is kept as it is.
pub open spec fn lines_from(s: Seq<char>, i: int) -> Seq<Seq<char>>
    decreases s.len() - i,
{
    if i < 0 || i >= s.len() {
        seq![]
    } else {
        match find_from(s, '\n', i) {
            None => seq![s.subrange(i, s.len() as int)],
            Some(k) => {
                proof {
                    lemma_find_from(s, '\n', i);
                }
                seq![strip_cr(s.subrange(i, k))] + lines_from(s, k + 1)
            },
        }
    }
}

/// The lines of a text.
pub open spec fn lines_of(s: Seq<char>) -> Seq<Seq<char>> {
    lines_from(s, 0)
}

/// The views of a sequence of string slices.
pub open spec fn str_views(v: Seq<&str>) -> Seq<Seq<char>> {
    v.map_values(|l: &str| l@)
}

/// Splits `content` into its lines (`str::lines`).
pub fn extract_lines(content: &str) -> (lines: Vec<&str>)
    ensures
        str_views(lines@) == lines_of(content@),
{
    let cs = str_to_chars(content);
    let n = cs.len();
    let mut out: Vec<&str> = Vec::new();
    let mut i: usize = 0;
    while i < n
        invariant
            n == cs@.len(),
            cs@ == content@,
            i <= n,
            lines_of(cs@) == str_views(out@) + lines_from(cs@, i as int),
        decreases n - i,
    {
        proof {
            lemma_find_from(cs@, '\n', i as int);
        }
        let ghost prev = out@;
        match find_char_from(&cs, '\n', i) {
            None => {
                let l = content.substring_char(i, n);
                out.push(l);
                assert(str_views(out@) =~= str_views(prev).push(l@));
                assert(lines_from(cs@, n as int) =~= Seq::<Seq<char>>::empty());
                i = n;
            },
            Some(k) => {
                let end: usize = if k > i && cs[k - 1] == '\r' {
                    k - 1
                } else {
                    k
                };
                let l = content.substring_char(i, end);
                assert(l@ =~= strip_cr(cs@.subrange(i as int, k as int)));
                out.push(l);
                assert(str_views(out@) =~= str_views(prev).push(l@));
                i = k + 1;
            },
        }
    }
    assert(lines_from(cs@, i as int) =~= Seq::<Seq<char>>::empty());
    assert(str_views(out@) + Seq::<Seq<char>>::empty() =~= str_views(out@));
    out
}

} // verus!
