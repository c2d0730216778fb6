//! Reading fragments back: parsing fragment lines, collecting them by hash,
//! and rebuilding the original data from a complete set.
use std::collections::HashMap;
use vstd::prelude::*;

use crate::codec::{b64_decode, b64_decoded, percent_decode_name, percent_decoded};
use crate::text::{
    chars_lt, lemma_chars_lt_total, lemma_chars_lt_trans, str_lt, all_digits, append_chars, append_str, decimal, decimal_chars, digits_value, find_char_from, find_from,
    is_digit, lemma_find_from, parse_usize, prefixed, parse_usize_spec, str_to_chars, string_from_chars,
    string_from_range,
};

use std::io::Read;
use xz2::read::XzDecoder;

pub mod fragment;
pub mod scan;

verus! {

broadcast use vstd::std_specs::hash::group_hash_axioms;

// ---------------------------------------------------------------------------
// One fragment line
// ---------------------------------------------------------------------------

/// One fragment line, parsed: `<hash>:<index>:<chunk>`.
#[derive(Debug, Clone)]
pub struct ParsedFragment {
    pub hash: String,
    pub index: usize,
    pub chunk: String,
}

/// A hexadecimal digit, either case.
pub open spec fn is_hex_char(c: char) -> bool {
    ('0' <= c && c <= '9') || ('a' <= c && c <= 'f') || ('A' <= c && c <= 'F')
}

/// At position `i` of `s` stands the fragment marker: eight hex digits,
/// `:`, three decimal digits, `:`.
pub open spec fn marker_at(s: Seq<char>, i: int) -> bool {
    &&& 0 <= i
    &&& i + 13 <= s.len()
    &&& forall|k: int| i <= k < i + 8 ==> is_hex_char(#[trigger] s[k])
    &&& s[i + 8] == ':'
    &&& is_digit(s[i + 9])
    &&& is_digit(s[i + 10])
    &&& is_digit(s[i + 11])
    &&& s[i + 12] == ':'
}

/// The first marker at or after position `i`.
pub open spec fn first_marker_from(s: Seq<char>, i: int) -> Option<int>
    decreases s.len() - i,
{
    if i < 0 || i + 13 > s.len() {
        None
    } else if marker_at(s, i) {
        Some(i)
    } else {
        first_marker_from(s, i + 1)
    }
}

/// The fragment that a line holds: at the first marker, its hash, its index
/// and everything after the marker.
pub open spec fn fragment_of(line: Seq<char>) -> Option<(Seq<char>, usize, Seq<char>)> {
    match first_marker_from(line, 0) {
        None => None,
        Some(i) => Some(
            (
                line.subrange(i, i + 8),
                digits_value(line.subrange(i + 9, i + 12)) as usize,
                line.subrange(i + 13, line.len() as int),
            ),
        ),
    }
}

/// The value of three digits.
proof fn lemma_three_digits(t: Seq<char>)
    requires
        t.len() == 3,
        all_digits(t),
    ensures
        digits_value(t) == (t[0] as nat - 48) * 100 + (t[1] as nat - 48) * 10 + (t[2] as nat
            - 48),
{
    let t1 = t.drop_last().drop_last();
    let t2 = t.drop_last();
    assert(t1.drop_last() =~= Seq::<char>::empty());
    assert(t1 =~= seq![t[0]]);
    assert(t2 =~= seq![t[0], t[1]]);
    assert(is_digit(t[0]) && is_digit(t[1]) && is_digit(t[2]));
    assert(t1.last() == t[0]);
    assert(digits_value(t1.drop_last()) == 0);
    assert(digits_value(t1) == t[0] as nat - 48);
    assert(digits_value(t2) == (t[0] as nat - 48) * 10 + (t[1] as nat - 48));
}

/// Whether the marker stands at position `i`.
fn marker_at_exec(s: &Vec<char>, i: usize) -> (r: bool)
    requires
        i + 13 <= s@.len(),
    ensures
        r == marker_at(s@, i as int),
{
    let _n = s.len();
    let mut k: usize = 0;
    while k < 8
        invariant
            k <= 8,
            i + 13 <= s@.len(),
            s@.len() <= usize::MAX,
            forall|j: int| i <= j < i + k ==> is_hex_char(#[trigger] s@[j]),
        decreases 8 - k,
    {
        let c = s[i + k];
        if !(('0' <= c && c <= '9') || ('a' <= c && c <= 'f') || ('A' <= c && c <= 'F')) {
            assert(!is_hex_char(s@[i + k]));
            return false;
        }
        k += 1;
    }
    s[i + 8] == ':' && '0' <= s[i + 9] && s[i + 9] <= '9' && '0' <= s[i + 10] && s[i + 10]
        <= '9' && '0' <= s[i + 11] && s[i + 11] <= '9' && s[i + 12] == ':'
}

/// Finds the fragment in one line (see `fragment_of`).
pub fn parse_fragment_line(line: &str) -> (r: Option<ParsedFragment>)
    ensures
        match (r, fragment_of(line@)) {
            (Some(p), Some((h, i, c))) => p.hash@ == h && p.index == i && p.chunk@ == c,
            (None, None) => true,
            _ => false,
        },
{
    let s = str_to_chars(line);
    let n = s.len();
    if n < 13 {
        return None;
    }
    let mut i: usize = 0;
    while i <= n - 13
        invariant
            n == s@.len(),
            s@ == line@,
            13 <= n,
            first_marker_from(s@, 0) == first_marker_from(s@, i as int),
        decreases n - i,
    {
        if marker_at_exec(&s, i) {
            let hash = string_from_range(&s, i, i + 8);
            proof {
                assert(all_digits(s@.subrange(i + 9, i + 12)));
            }
            let d0 = (s[i + 9] as u32 - 48) as usize;
            let d1 = (s[i + 10] as u32 - 48) as usize;
            let d2 = (s[i + 11] as u32 - 48) as usize;
            let index: usize = d0 * 100 + d1 * 10 + d2;
            proof {
                let t = s@.subrange(i + 9, i + 12);
                lemma_three_digits(t);
            }
            let chunk = string_from_range(&s, i + 13, n);
            return Some(ParsedFragment { hash, index, chunk });
        }
        i += 1;
    }
    None
}

// ---------------------------------------------------------------------------
// Meta information in the first fragment
// ---------------------------------------------------------------------------

/// The first fragment's chunk begins `<count>:<name>:<flag>:`. Its meta
/// information: the fragment count, the percent-decoded file name, and
/// whether the flag is `xv` (compressed).
pub open spec fn meta_of(chunk: Seq<char>) -> Option<(usize, Seq<char>, bool)> {
    match find_from(chunk, ':', 0) {
        None => None,
        Some(c1) => match find_from(chunk, ':', c1 + 1) {
            None => None,
            Some(c2) => match find_from(chunk, ':', c2 + 1) {
                None => None,
                Some(c3) => match parse_usize_spec(chunk.subrange(0, c1)) {
                    None => None,
                    Some(n) => match percent_decoded(chunk.subrange(c1 + 1, c2)) {
                        None => None,
                        Some(f) => Some((n, f, chunk.subrange(c2 + 1, c3) == seq!['x', 'v'])),
                    },
                },
            },
        },
    }
}

/// Reads the meta information of a first fragment (see `meta_of`).
pub fn extract_meta(chunk: &str) -> (r: Option<(usize, String, bool)>)
    ensures
        match (r, meta_of(chunk@)) {
            (Some((n, f, c)), Some((n2, f2, c2))) => n == n2 && f@ == f2 && c == c2,
            (None, None) => true,
            _ => false,
        },
{
    let s = str_to_chars(chunk);
    proof {
        lemma_find_from(s@, ':', 0);
    }
    let c1 = match find_char_from(&s, ':', 0) {
        Some(k) => k,
        None => return None,
    };
    proof {
        lemma_find_from(s@, ':', c1 + 1);
    }
    let c2 = match find_char_from(&s, ':', c1 + 1) {
        Some(k) => k,
        None => return None,
    };
    proof {
        lemma_find_from(s@, ':', c2 + 1);
    }
    let c3 = match find_char_from(&s, ':', c2 + 1) {
        Some(k) => k,
        None => return None,
    };
    let count_chars = string_from_range(&s, 0, c1);
    let count_vec = str_to_chars(count_chars.as_str());
    let qr_num = match parse_usize(count_vec.as_slice()) {
        Some(n) => n,
        None => return None,
    };
    let name_enc = string_from_range(&s, c1 + 1, c2);
    let filename = match percent_decode_name(name_enc.as_str()) {
        Some(f) => f,
        None => return None,
    };
    let compressed = c3 - c2 == 3 && s[c2 + 1] == 'x' && s[c2 + 2] == 'v';
    proof {
        let flag = s@.subrange(c2 + 1, c3 as int);
        if compressed {
            assert(flag =~= seq!['x', 'v']);
        } else if flag == seq!['x', 'v'] {
            assert(flag.len() == 2);
            assert(flag[0] == s@[c2 + 1]);
        }
    }
    Some((qr_num, filename, compressed))
}

// ---------------------------------------------------------------------------
// Entries collected by hash
// ---------------------------------------------------------------------------

/// The fragments read so far for one hash, with the meta information of its
/// first fragment.
#[derive(Debug, Clone)]
pub struct HashEntry {
    pub hash: String,
    pub qr_num: Option<usize>,
    pub filename: Option<String>,
    pub compressed: Option<bool>,
    pub fragments: HashMap<usize, String>,
}

/// The mathematical content of a `HashEntry`.
pub ghost struct EntryModel {
    pub hash: Seq<char>,
    pub qr_num: Option<usize>,
    pub filename: Option<Seq<char>>,
    pub compressed: Option<bool>,
    pub fragments: Map<usize, Seq<char>>,
}

pub open spec fn opt_string_view(o: Option<String>) -> Option<Seq<char>> {
    match o {
        Some(s) => Some(s@),
        None => None,
    }
}

impl View for HashEntry {
    type V = EntryModel;

    open spec fn view(&self) -> EntryModel {
        EntryModel {
            hash: self.hash@,
            qr_num: self.qr_num,
            filename: opt_string_view(self.filename),
            compressed: self.compressed,
            fragments: self.fragments@.map_values(|s: String| s@),
        }
    }
}

/// An entry with no fragment and no meta information yet.
pub open spec fn empty_entry(hash: Seq<char>) -> EntryModel {
    EntryModel {
        hash,
        qr_num: None,
        filename: None,
        compressed: None,
        fragments: Map::empty(),
    }
}

/// The indices in `1..=n` that `f` lacks, in increasing order.
pub open spec fn missing_upto(f: Map<usize, Seq<char>>, n: nat) -> Seq<usize>
    decreases n,
{
    if n == 0 {
        seq![]
    } else {
        let p = missing_upto(f, (n - 1) as nat);
        if f.contains_key(n as usize) {
            p
        } else {
            p.push(n as usize)
        }
    }
}

/// The missing fragment indices of an entry: none while its count is unknown.
pub open spec fn missing_of(e: EntryModel) -> Seq<usize> {
    match e.qr_num {
        Some(t) => missing_upto(e.fragments, t as nat),
        None => seq![],
    }
}

/// An entry is complete when its count is known and nothing is missing.
pub open spec fn complete(e: EntryModel) -> bool {
    e.qr_num is Some && missing_of(e).len() == 0
}

/// Nothing is missing up to `n` exactly when every index in `1..=n` is there.
pub proof fn lemma_missing_upto_empty(f: Map<usize, Seq<char>>, n: nat)
    requires
        n <= usize::MAX,
    ensures
        missing_upto(f, n).len() == 0 <==> forall|i: usize|
            1 <= i <= n ==> #[trigger] f.contains_key(i),
    decreases n,
{
    if n > 0 {
        lemma_missing_upto_empty(f, (n - 1) as nat);
        if !f.contains_key(n as usize) {
            assert(missing_upto(f, n).len() > 0);
        }
    }
}

/// One fragment added to an entry: a first fragment with readable meta
/// information sets it; the chunk is stored under its index, replacing an
/// earlier one.
pub open spec fn entry_step(e: EntryModel, index: usize, chunk: Seq<char>) -> EntryModel {
    let m = if index == 1 {
        meta_of(chunk)
    } else {
        None
    };
    match m {
        Some((n, f, c)) => EntryModel {
            hash: e.hash,
            qr_num: Some(n),
            filename: Some(f),
            compressed: Some(c),
            fragments: e.fragments.insert(index, chunk),
        },
        None => EntryModel {
            hash: e.hash,
            qr_num: e.qr_num,
            filename: e.filename,
            compressed: e.compressed,
            fragments: e.fragments.insert(index, chunk),
        },
    }
}

impl HashEntry {
    /// An empty entry for `hash`.
    pub fn new(hash: &str) -> (r: Self)
        ensures
            r@ == empty_entry(hash@),
    {
        let r = HashEntry {
            hash: hash.to_owned(),
            qr_num: None,
            filename: None,
            compressed: None,
            fragments: HashMap::new(),
        };
        assert(r@.fragments =~= Map::<usize, Seq<char>>::empty());
        r
    }

    /// The fragment indices (counted from 1) that are still missing.
    pub fn missing_indices(&self) -> (r: Vec<usize>)
        ensures
            r@ == missing_of(self@),
    {
        match self.qr_num {
            None => Vec::new(),
            Some(total) => {
                let mut out: Vec<usize> = Vec::new();
                let mut i: usize = 0;
                while i < total
                    invariant
                        i <= total,
                        self.qr_num == Some(total),
                        out@ == missing_upto(self@.fragments, i as nat),
                    decreases total - i,
                {
                    i += 1;
                    if !self.fragments.contains_key(&i) {
                        out.push(i);
                    }
                }
                out
            },
        }
    }

    /// Whether the count is known and no fragment is missing.
    pub fn is_complete(&self) -> (r: bool)
        ensures
            r == complete(self@),
    {
        self.qr_num.is_some() && self.missing_indices().len() == 0
    }

    /// Adds one fragment (see `entry_step`).
    fn add(&mut self, index: usize, chunk: String)
        ensures
            final(self)@ == entry_step(old(self)@, index, chunk@),
    {
        let ghost old_frags = self@.fragments;
        if index == 1 {
            if let Some((n, f, c)) = extract_meta(chunk.as_str()) {
                self.qr_num = Some(n);
                self.filename = Some(f);
                self.compressed = Some(c);
            }
        }
        let ghost cv = chunk@;
        self.fragments.insert(index, chunk);
        assert(self@.fragments =~= old_frags.insert(index, cv));
    }
}

// ---------------------------------------------------------------------------
// The collection of entries
// ---------------------------------------------------------------------------

/// The first entry at or after `i` whose hash is `h`.
pub open spec fn find_entry(es: Seq<EntryModel>, h: Seq<char>, i: int) -> Option<int>
    decreases es.len() - i,
{
    if i < 0 || i >= es.len() {
        None
    } else if es[i].hash == h {
        Some(i)
    } else {
        find_entry(es, h, i + 1)
    }
}

/// No two entries share a hash.
pub open spec fn distinct_hashes(es: Seq<EntryModel>) -> bool {
    forall|i: int, j: int|
        0 <= i < es.len() && 0 <= j < es.len() && i != j ==> #[trigger] es[i].hash
            != #[trigger] es[j].hash
}

/// What one line does to the entries: a line without a fragment changes
/// nothing; a fragment goes to the entry of its hash, which is created
/// after the others when there is none yet.
pub open spec fn apply_line(es: Seq<EntryModel>, line: Seq<char>) -> Seq<EntryModel> {
    match fragment_of(line) {
        None => es,
        Some((h, index, chunk)) => match find_entry(es, h, 0) {
            Some(k) => es.update(k, entry_step(es[k], index, chunk)),
            None => es.push(entry_step(empty_entry(h), index, chunk)),
        },
    }
}

/// The entries that a list of lines yields, read in order.
pub open spec fn parse_lines_spec(lines: Seq<Seq<char>>) -> Seq<EntryModel>
    decreases lines.len(),
{
    if lines.len() == 0 {
        seq![]
    } else {
        apply_line(parse_lines_spec(lines.drop_last()), lines.last())
    }
}

proof fn lemma_find_entry(es: Seq<EntryModel>, h: Seq<char>, i: int)
    requires
        0 <= i,
    ensures
        match find_entry(es, h, i) {
            Some(k) => i <= k < es.len() && es[k].hash == h && forall|j: int|
                i <= j < k ==> es[j].hash != h,
            None => forall|j: int| i <= j < es.len() ==> es[j].hash != h,
        },
    decreases es.len() - i,
{
    if i < es.len() && es[i].hash != h {
        lemma_find_entry(es, h, i + 1);
    }
}

/// Each line keeps the hashes distinct.
pub proof fn lemma_apply_line_distinct(es: Seq<EntryModel>, line: Seq<char>)
    requires
        distinct_hashes(es),
    ensures
        distinct_hashes(apply_line(es, line)),
{
    if let Some((h, index, chunk)) = fragment_of(line) {
        lemma_find_entry(es, h, 0);
        let r = apply_line(es, line);
        assert forall|i: int, j: int|
            0 <= i < r.len() && 0 <= j < r.len() && i != j implies #[trigger] r[i].hash
            != #[trigger] r[j].hash by {
            if i < es.len() && j < es.len() {
                assert(r[i].hash == es[i].hash);
                assert(r[j].hash == es[j].hash);
            }
        }
    }
}

/// Fragment entries, one per hash.
pub struct EntryMap {
    entries: Vec<HashEntry>,
}

impl View for EntryMap {
    type V = Seq<EntryModel>;

    closed spec fn view(&self) -> Seq<EntryModel> {
        self.entries@.map_values(|e: HashEntry| e@)
    }
}

impl EntryMap {
    /// The number of entries.
    pub fn len(&self) -> (r: usize)
        ensures
            r == self@.len(),
    {
        self.entries.len()
    }

    /// Whether there is no entry.
    pub fn is_empty(&self) -> (r: bool)
        ensures
            r == (self@.len() == 0),
    {
        self.entries.len() == 0
    }

    /// Position of the entry for `hash`.
    fn position(&self, hash: &String) -> (r: Option<usize>)
        ensures
            match r {
                Some(k) => find_entry(self@, hash@, 0) == Some(k as int) && k < self.entries@.len(),
                None => find_entry(self@, hash@, 0) is None,
            },
    {
        proof {
            lemma_find_entry(self@, hash@, 0);
        }
        let mut i: usize = 0;
        while i < self.entries.len()
            invariant
                i <= self.entries@.len(),
                find_entry(self@, hash@, 0) == find_entry(self@, hash@, i as int),
            decreases self.entries@.len() - i,
        {
            if self.entries[i].hash == *hash {
                return Some(i);
            }
            i += 1;
        }
        None
    }

    /// The entry for `hash`, if any.
    pub fn get(&self, hash: &str) -> (r: Option<&HashEntry>)
        ensures
            match find_entry(self@, hash@, 0) {
                Some(k) => r is Some && r.unwrap()@ == self@[k],
                None => r is None,
            },
    {
        let h = hash.to_owned();
        match self.position(&h) {
            Some(k) => Some(&self.entries[k]),
            None => None,
        }
    }

    /// Whether there is an entry for `hash`.
    pub fn contains_key(&self, hash: &str) -> (r: bool)
        ensures
            r == (find_entry(self@, hash@, 0) is Some),
    {
        let h = hash.to_owned();
        self.position(&h).is_some()
    }

    /// The entries, in the order in which their hashes first appeared.
    pub fn values(&self) -> (r: std::slice::Iter<'_, HashEntry>)
        ensures
            vstd::std_specs::iter::IteratorSpec::remaining(&r).map_values(|e: &HashEntry| e@) == self@,
    {
        broadcast use vstd::std_specs::slice::group_slice_axioms;

        let r = self.entries.iter();
        assert(vstd::std_specs::iter::IteratorSpec::remaining(&r).map_values(|e: &HashEntry| e@) =~= self@);
        r
    }

    /// The positions of the entries (in the order of `values`) sorted by
    /// hash (see `chars_lt`): each position once, and no hash before a
    /// smaller one.
    pub fn order_by_hash(&self) -> (r: Vec<usize>)
        ensures
            r@.len() == self@.len(),
            r@.no_duplicates(),
            forall|i: int| 0 <= i < r@.len() ==> #[trigger] r@[i] < self@.len(),
            forall|i: int, j: int|
                0 <= i < j < r@.len() ==> !chars_lt(
                    #[trigger] self@[r@[j] as int].hash,
                    #[trigger] self@[r@[i] as int].hash,
                ),
    {
        let ghost es = self@;
        let n = self.entries.len();
        let mut out: Vec<usize> = Vec::new();
        let mut k: usize = 0;
        while k < n
            invariant
                k <= n,
                n == es.len(),
                es == self@,
                out@.len() == k,
                out@.no_duplicates(),
                forall|i: int| 0 <= i < out@.len() ==> #[trigger] out@[i] < k,
                forall|i: int, j: int|
                    0 <= i < j < out@.len() ==> !chars_lt(
                        #[trigger] es[out@[j] as int].hash,
                        #[trigger] es[out@[i] as int].hash,
                    ),
            decreases n - k,
        {
            let hk = self.entries[k].hash.as_str();
            assert(hk@ == es[k as int].hash);
            let mut p: usize = 0;
            let mut found = false;
            while !found && p < out.len()
                invariant
                    p <= out@.len(),
                    k < n,
                    n == es.len(),
                    es == self@,
                    hk@ == es[k as int].hash,
                    forall|i: int| 0 <= i < out@.len() ==> #[trigger] out@[i] < k,
                    forall|i: int| 0 <= i < p ==> !chars_lt(hk@, #[trigger] es[out@[i] as int].hash),
                    found ==> p < out@.len() && chars_lt(hk@, es[out@[p as int] as int].hash),
                decreases out@.len() - p, (if found { 0int } else { 1int }),
            {
                let q = out[p];
                assert(self.entries[q as int]@.hash == es[q as int].hash);
                if str_lt(hk, self.entries[q].hash.as_str()) {
                    found = true;
                } else {
                    p += 1;
                }
            }
            let ghost old_out = out@;
            out.insert(p, k);
            proof {
                assert(out@ == old_out.insert(p as int, k));
                assert forall|i: int| 0 <= i < out@.len() implies #[trigger] out@[i] < k + 1 by {
                    if i < p {
                        assert(out@[i] == old_out[i]);
                    } else if i > p {
                        assert(out@[i] == old_out[i - 1]);
                    }
                }
                assert forall|i: int, j: int| 0 <= i < out@.len() && 0 <= j < out@.len() && i != j implies out@[i] != out@[j] by {
                    if i != p && j != p {
                        let i0 = if i < p { i } else { i - 1 };
                        let j0 = if j < p { j } else { j - 1 };
                        assert(out@[i] == old_out[i0]);
                        assert(out@[j] == old_out[j0]);
                    } else if i == p {
                        let j0 = if j < p { j } else { j - 1 };
                        assert(out@[j] == old_out[j0]);
                    } else {
                        let i0 = if i < p { i } else { i - 1 };
                        assert(out@[i] == old_out[i0]);
                    }
                }
                assert forall|i: int, j: int| 0 <= i < j < out@.len() implies !chars_lt(
                    #[trigger] es[out@[j] as int].hash,
                    #[trigger] es[out@[i] as int].hash,
                ) by {
                    if i != p && j != p {
                        let i0 = if i < p { i } else { i - 1 };
                        let j0 = if j < p { j } else { j - 1 };
                        assert(out@[i] == old_out[i0]);
                        assert(out@[j] == old_out[j0]);
                    } else if i == p {
                        let j0 = j - 1;
                        assert(out@[j] == old_out[j0]);
                        let hj = es[old_out[j0] as int].hash;
                        let hp = es[old_out[p as int] as int].hash;
                        if chars_lt(hj, hk@) {
                            assert(found);
                            if j0 > p {
                                assert(!chars_lt(hj, hp));
                                lemma_chars_lt_trans(hj, hk@, hp);
                            } else {
                                lemma_chars_lt_total(hj, hk@);
                            }
                        }
                    } else {
                        assert(out@[i] == old_out[i]);
                        if j == p {
                            assert(!chars_lt(hk@, es[old_out[i] as int].hash));
                        } else {
                            let j0 = j - 1;
                            assert(out@[j] == old_out[j0]);
                            assert(!chars_lt(es[old_out[j0] as int].hash, es[old_out[i] as int].hash));
                        }
                    }
                }
            }
            k += 1;
        }
        out
    }

    /// Adds one parsed fragment (see `apply_line`).
    fn add_fragment(&mut self, frag: ParsedFragment)
        ensures
            final(self)@ == (match find_entry(old(self)@, frag.hash@, 0) {
                Some(k) => old(self)@.update(k, entry_step(old(self)@[k], frag.index, frag.chunk@)),
                None => old(self)@.push(entry_step(empty_entry(frag.hash@), frag.index, frag.chunk@)),
            }),
    {
        let ghost old_view = self@;
        let ParsedFragment { hash, index, chunk } = frag;
        match self.position(&hash) {
            Some(k) => {
                let e = &mut self.entries[k];
                e.add(index, chunk);
                assert(self@ =~= old_view.update(k as int, entry_step(old_view[k as int], index, frag.chunk@)));
            },
            None => {
                let mut e = HashEntry::new(hash.as_str());
                e.add(index, chunk);
                self.entries.push(e);
                assert(self@ =~= old_view.push(entry_step(empty_entry(frag.hash@), index, frag.chunk@)));
            },
        }
    }
}

/// Reads fragments from text lines and collects them by hash. Lines without
/// a fragment are skipped; a later fragment with the same hash and index
/// replaces an earlier one.
pub fn parse_lines(lines: &[&str]) -> (r: EntryMap)
    ensures
        r@ == parse_lines_spec(fragment::str_views(lines@)),
        distinct_hashes(r@),
{
    let mut map = EntryMap { entries: Vec::new() };
    let ghost views = fragment::str_views(lines@);
    assert(map@ =~= Seq::<EntryModel>::empty());
    let mut i: usize = 0;
    while i < lines.len()
        invariant
            i <= lines@.len(),
            views == fragment::str_views(lines@),
            map@ == parse_lines_spec(views.take(i as int)),
            distinct_hashes(map@),
        decreases lines@.len() - i,
    {
        let ghost before = map@;
        proof {
            assert(views.take(i + 1).drop_last() =~= views.take(i as int));
            assert(views.take(i + 1).last() == lines@[i as int]@);
            lemma_apply_line_distinct(before, lines@[i as int]@);
        }
        match parse_fragment_line(lines[i]) {
            Some(frag) => {
                map.add_fragment(frag);
            },
            None => {},
        }
        i += 1;
    }
    assert(views.take(lines@.len() as int) =~= views);
    map
}

// ---------------------------------------------------------------------------
// Rebuilding the data
// ---------------------------------------------------------------------------

/// The data that xz decompression (a single `.xz` stream) gives back for
/// `compressed`, or `None` where the decoder reports an error.
pub uninterp spec fn xz_decoded(compressed: Seq<u8>) -> Option<Seq<u8>>;

/// Reads `data` to the end through `xz2::read::XzDecoder`.
/// Claims that it succeeds exactly when the named decompression is defined
/// and then returns it. An error is handed back as the `io::Error`'s own
/// text, which is not stated.
#[verifier::external_body]
fn decompress_xz(data: &[u8]) -> (res: Result<Vec<u8>, String>)
    ensures
        res is Ok <==> xz_decoded(data@) is Some,
        res matches Ok(v) ==> v@ == xz_decoded(data@).unwrap(),
{
    let mut out = Vec::new();
    XzDecoder::new(data).read_to_end(&mut out).map(|_| out).map_err(|e| e.to_string())
}

/// The chunks `f[1]`, ..., `f[n]`, joined.
pub open spec fn joined_fragments(f: Map<usize, Seq<char>>, n: nat) -> Seq<char>
    decreases n,
{
    if n == 0 {
        seq![]
    } else {
        joined_fragments(f, (n - 1) as nat) + f[n as usize]
    }
}

/// The smallest index in `1..=n` that `f` lacks.
pub open spec fn first_missing(f: Map<usize, Seq<char>>, n: nat) -> Option<nat>
    decreases n,
{
    if n == 0 {
        None
    } else {
        match first_missing(f, (n - 1) as nat) {
            Some(k) => Some(k),
            None => if f.contains_key(n as usize) {
                None
            } else {
                Some(n)
            },
        }
    }
}

/// A missing index stays the first missing one as the range grows.
proof fn lemma_first_missing_mono(f: Map<usize, Seq<char>>, i: nat, n: nat)
    requires
        i <= n,
        first_missing(f, i) is Some,
    ensures
        first_missing(f, n) == first_missing(f, i),
    decreases n,
{
    if n > i {
        lemma_first_missing_mono(f, i, (n - 1) as nat);
    }
}

/// What follows the third `:` of the joined text: the Base64 payload.
pub open spec fn payload_text(q: Seq<char>) -> Option<Seq<char>> {
    match find_from(q, ':', 0) {
        None => None,
        Some(c1) => match find_from(q, ':', c1 + 1) {
            None => None,
            Some(c2) => match find_from(q, ':', c2 + 1) {
                None => None,
                Some(c3) => Some(q.subrange(c3 + 1, q.len() as int)),
            },
        },
    }
}

pub open spec fn msg_unknown_count() -> Seq<char> {
    "QRコード数が不明"@
}

pub open spec fn msg_missing(i: nat) -> Seq<char> {
    "フラグメント "@ + decimal(i) + " が不足しています"@
}

pub open spec fn msg_format() -> Seq<char> {
    "フォーマットエラー"@
}

/// The Base64 text of an entry: what follows the third `:` of its
/// fragments joined in order, or this library's error message.
pub open spec fn payload_spec(e: EntryModel) -> Result<Seq<char>, Seq<char>> {
    match e.qr_num {
        None => Err(msg_unknown_count()),
        Some(n) => match first_missing(e.fragments, n as nat) {
            Some(i) => Err(msg_missing(i)),
            None => match payload_text(joined_fragments(e.fragments, n as nat)) {
                None => Err(msg_format()),
                Some(t) => Ok(t),
            },
        },
    }
}

/// Why rebuilding an entry failed: one of this library's messages, given
/// whole, or an error that a decoder reported, whose message is the given
/// prefix followed by the decoder's own text.
pub ghost enum RebuildError {
    Message(Seq<char>),
    Decoder(Seq<char>),
}

pub open spec fn msg_b64_prefix() -> Seq<char> {
    "Base64デコードエラー: "@
}

pub open spec fn msg_xz_prefix() -> Seq<char> {
    "xz解凍エラー: "@
}

/// Whether `msg` is a message that `err` describes.
pub open spec fn describes(err: RebuildError, msg: Seq<char>) -> bool {
    match err {
        RebuildError::Message(m) => msg == m,
        RebuildError::Decoder(p) => p.is_prefix_of(msg),
    }
}

/// The outcome of rebuilding an entry: the data, or why it failed.
pub open spec fn reconstruct_spec(e: EntryModel) -> Result<Seq<u8>, RebuildError> {
    match payload_spec(e) {
        Err(m) => Err(RebuildError::Message(m)),
        Ok(t) => match b64_decoded(t) {
            None => Err(RebuildError::Decoder(msg_b64_prefix())),
            Some(d) => if e.compressed == Some(true) {
                match xz_decoded(d) {
                    None => Err(RebuildError::Decoder(msg_xz_prefix())),
                    Some(o) => Ok(o),
                }
            } else {
                Ok(d)
            },
        },
    }
}

/// The message for a missing fragment.
fn missing_message(i: usize) -> (m: String)
    ensures
        m@ == msg_missing(i as nat),
{
    let mut v = str_to_chars("フラグメント ");
    let d = decimal_chars(i);
    append_chars(&mut v, &d);
    append_str(&mut v, " が不足しています");
    string_from_chars(&v)
}

/// The Base64 text of an entry (see `payload_spec`): joins its fragments
/// in order and takes what follows the third `:`.
pub fn payload_of(entry: &HashEntry) -> (res: Result<String, String>)
    ensures
        match payload_spec(entry@) {
            Ok(t) => res is Ok && res.unwrap()@ == t,
            Err(m) => res is Err && res->Err_0@ == m,
        },
{
    let qr_num = match entry.qr_num {
        Some(n) => n,
        None => return Err("QRコード数が不明".to_owned()),
    };
    let ghost f = entry@.fragments;
    let mut q: Vec<char> = Vec::new();
    let mut i: usize = 0;
    while i < qr_num
        invariant
            i <= qr_num,
            entry.qr_num == Some(qr_num),
            f == entry@.fragments,
            first_missing(f, i as nat) is None,
            q@ == joined_fragments(f, i as nat),
        decreases qr_num - i,
    {
        i += 1;
        match entry.fragments.get(&i) {
            Some(chunk) => {
                append_str(&mut q, chunk.as_str());
            },
            None => {
                assert(first_missing(f, i as nat) == Some(i as nat));
                proof {
                    lemma_first_missing_mono(f, i as nat, qr_num as nat);
                }
                return Err(missing_message(i));
            },
        }
    }
    proof {
        lemma_find_from(q@, ':', 0);
    }
    let c1 = match find_char_from(&q, ':', 0) {
        Some(k) => k,
        None => return Err("フォーマットエラー".to_owned()),
    };
    proof {
        lemma_find_from(q@, ':', c1 + 1);
    }
    let c2 = match find_char_from(&q, ':', c1 + 1) {
        Some(k) => k,
        None => return Err("フォーマットエラー".to_owned()),
    };
    proof {
        lemma_find_from(q@, ':', c2 + 1);
    }
    let c3 = match find_char_from(&q, ':', c2 + 1) {
        Some(k) => k,
        None => return Err("フォーマットエラー".to_owned()),
    };
    Ok(string_from_range(&q, c3 + 1, q.len()))
}

/// Rebuilds the data of an entry: decodes its Base64 text (see
/// `payload_of`) and, when the entry is marked compressed, decompresses it.
/// A decoder's error comes back after `Base64デコードエラー: ` or
/// `xz解凍エラー: `.
pub fn reconstruct(entry: &HashEntry) -> (res: Result<Vec<u8>, String>)
    ensures
        match reconstruct_spec(entry@) {
            Ok(d) => res is Ok && res.unwrap()@ == d,
            Err(err) => res is Err && describes(err, res->Err_0@),
        },
{
    let b64 = match payload_of(entry) {
        Ok(t) => t,
        Err(m) => return Err(m),
    };
    let decoded = match b64_decode(b64.as_str()) {
        Ok(d) => d,
        Err(e) => {
            let msg = prefixed("Base64デコードエラー: ", e.as_str());
            assert(msg@.subrange(0, msg_b64_prefix().len() as int) =~= msg_b64_prefix());
            return Err(msg);
        },
    };
    if entry.compressed == Some(true) {
        match decompress_xz(&decoded) {
            Ok(d) => Ok(d),
            Err(e) => {
                let msg = prefixed("xz解凍エラー: ", e.as_str());
                assert(msg@.subrange(0, msg_xz_prefix().len() as int) =~= msg_xz_prefix());
                Err(msg)
            },
        }
    } else {
        Ok(decoded)
    }
}

} // verus!
