//! The order in which fragments are scanned does not matter: the entry that
//! a hash gets depends only on which fragment lines were read, not on their
//! order or on repeats, as long as no two lines give one fragment index of
//! one hash different chunks.
use vstd::prelude::*;

use super::{
    apply_line, empty_entry, entry_step, find_entry, fragment_of, lemma_find_entry,
    meta_of, parse_lines_spec, EntryModel,
};

verus! {

/// The entry for `h` among `es`, if any.
pub open spec fn entry_for(es: Seq<EntryModel>, h: Seq<char>) -> Option<EntryModel> {
    match find_entry(es, h, 0) {
        Some(k) => Some(es[k]),
        None => None,
    }
}

/// The entry for `h` that reading `lines` in order builds, following only
/// the fragments of `h`.
pub open spec fn entry_of_lines(lines: Seq<Seq<char>>, h: Seq<char>) -> Option<EntryModel>
    decreases lines.len(),
{
    if lines.len() == 0 {
        None
    } else {
        let prev = entry_of_lines(lines.drop_last(), h);
        match fragment_of(lines.last()) {
            Some((h2, i, c)) => if h2 == h {
                Some(
                    entry_step(
                        match prev {
                            Some(e) => e,
                            None => empty_entry(h),
                        },
                        i,
                        c,
                    ),
                )
            } else {
                prev
            },
            None => prev,
        }
    }
}

/// One of `lines` is the fragment `c` with index `i` of hash `h`.
pub open spec fn has_frag(lines: Seq<Seq<char>>, h: Seq<char>, i: usize, c: Seq<char>) -> bool {
    exists|k: int| 0 <= k < lines.len() && #[trigger] fragment_of(lines[k]) == Some((h, i, c))
}

/// No two of `lines` give one fragment index of one hash different chunks.
pub open spec fn consistent(lines: Seq<Seq<char>>) -> bool {
    forall|h: Seq<char>, i: usize, c1: Seq<char>, c2: Seq<char>|
        #[trigger] has_frag(lines, h, i, c1) && #[trigger] has_frag(lines, h, i, c2) ==> c1 == c2
}

/// Some line of `lines` is a fragment of `h`.
pub open spec fn mentions(lines: Seq<Seq<char>>, h: Seq<char>) -> bool {
    exists|i: usize, c: Seq<char>| #[trigger] has_frag(lines, h, i, c)
}

/// The entry of `h` described by the set of its fragments: every index
/// read with its chunk, and the meta information of the first fragment
/// when it is there and readable.
pub open spec fn closed_entry(lines: Seq<Seq<char>>, h: Seq<char>) -> EntryModel {
    let frags = Map::new(
        |i: usize| exists|c: Seq<char>| #[trigger] has_frag(lines, h, i, c),
        |i: usize| choose|c: Seq<char>| #[trigger] has_frag(lines, h, i, c),
    );
    let m = if exists|c: Seq<char>| #[trigger] has_frag(lines, h, 1, c) {
        meta_of(choose|c: Seq<char>| #[trigger] has_frag(lines, h, 1, c))
    } else {
        None
    };
    match m {
        Some((n, f, cp)) => EntryModel {
            hash: h,
            qr_num: Some(n),
            filename: Some(f),
            compressed: Some(cp),
            fragments: frags,
        },
        None => EntryModel {
            hash: h,
            qr_num: None,
            filename: None,
            compressed: None,
            fragments: frags,
        },
    }
}

/// In consistent lines, the chunk of a fragment is the one chosen.
proof fn lemma_unique(lines: Seq<Seq<char>>, h: Seq<char>, i: usize, c: Seq<char>)
    requires
        consistent(lines),
        has_frag(lines, h, i, c),
    ensures
        (choose|c2: Seq<char>| #[trigger] has_frag(lines, h, i, c2)) == c,
{
    let c2 = choose|c2: Seq<char>| #[trigger] has_frag(lines, h, i, c2);
    assert(has_frag(lines, h, i, c2));
}

/// Finding a hash again after the entries changed at most in ways that keep
/// the hashes before position `es.len()` and add none equal to `h`.
proof fn lemma_find_entry_same(es: Seq<EntryModel>, es2: Seq<EntryModel>, h: Seq<char>)
    requires
        es2.len() >= es.len(),
        forall|j: int| 0 <= j < es.len() ==> #[trigger] es2[j].hash == es[j].hash,
        forall|j: int| es.len() <= j < es2.len() ==> #[trigger] es2[j].hash != h,
    ensures
        find_entry(es2, h, 0) == find_entry(es, h, 0),
{
    lemma_find_entry(es, h, 0);
    lemma_find_entry(es2, h, 0);
    match find_entry(es, h, 0) {
        Some(k) => {
            match find_entry(es2, h, 0) {
                Some(k2) => {
                    if k2 < k {
                        assert(es2[k2].hash == es[k2].hash);
                    } else if k2 > k {
                        assert(es2[k].hash == es[k].hash);
                    }
                },
                None => {
                    assert(es2[k].hash == es[k].hash);
                },
            }
        },
        None => {
            match find_entry(es2, h, 0) {
                Some(k2) => {
                    if k2 < es.len() {
                        assert(es2[k2].hash == es[k2].hash);
                    }
                },
                None => {},
            }
        },
    }
}

/// Finding `h` where it stands at `k` for the first time.
proof fn lemma_find_entry_at(es: Seq<EntryModel>, h: Seq<char>, k: int)
    requires
        0 <= k < es.len(),
        es[k].hash == h,
        forall|j: int| 0 <= j < k ==> #[trigger] es[j].hash != h,
    ensures
        find_entry(es, h, 0) == Some(k),
{
    lemma_find_entry(es, h, 0);
    match find_entry(es, h, 0) {
        Some(k2) => {
            if k2 < k {
                assert(es[k2].hash != h);
            } else if k2 > k {
                assert(es[k].hash != h);
            }
        },
        None => {
            assert(es[k].hash != h);
        },
    }
}

/// A line changes the entry of `h` only when it is a fragment of `h`, and
/// then by one step.
proof fn lemma_entry_for_apply(es: Seq<EntryModel>, l: Seq<char>, h: Seq<char>)
    ensures
        entry_for(apply_line(es, l), h) == match fragment_of(l) {
            Some((h2, i, c)) => if h2 == h {
                Some(
                    entry_step(
                        match entry_for(es, h) {
                            Some(e) => e,
                            None => empty_entry(h),
                        },
                        i,
                        c,
                    ),
                )
            } else {
                entry_for(es, h)
            },
            None => entry_for(es, h),
        },
{
    match fragment_of(l) {
        None => {},
        Some((h2, i, c)) => {
            let es2 = apply_line(es, l);
            lemma_find_entry(es, h2, 0);
            lemma_find_entry(es, h, 0);
            if h2 == h {
                match find_entry(es, h, 0) {
                    Some(k) => {
                        assert forall|j: int| 0 <= j < k implies #[trigger] es2[j].hash != h by {
                            assert(es2[j] == es[j]);
                        }
                        lemma_find_entry_at(es2, h, k);
                    },
                    None => {
                        assert forall|j: int| 0 <= j < es.len() implies #[trigger] es2[j].hash != h by {
                            assert(es2[j] == es[j]);
                        }
                        lemma_find_entry_at(es2, h, es.len() as int);
                    },
                }
            } else {
                match find_entry(es, h2, 0) {
                    Some(k) => {
                        assert forall|j: int| 0 <= j < es.len() implies #[trigger] es2[j].hash
                            == es[j].hash by {
                            if j != k {
                                assert(es2[j] == es[j]);
                            }
                        }
                        lemma_find_entry_same(es, es2, h);
                        match find_entry(es, h, 0) {
                            Some(k2) => {
                                assert(k2 != k);
                                assert(es2[k2] == es[k2]);
                            },
                            None => {},
                        }
                    },
                    None => {
                        assert forall|j: int| 0 <= j < es.len() implies #[trigger] es2[j].hash
                            == es[j].hash by {
                            assert(es2[j] == es[j]);
                        }
                        lemma_find_entry_same(es, es2, h);
                        match find_entry(es, h, 0) {
                            Some(k2) => {
                                assert(es2[k2] == es[k2]);
                            },
                            None => {},
                        }
                    },
                }
            }
        },
    }
}

/// Parsing gives each hash the entry that its own fragments build.
pub proof fn lemma_entry_of_lines(lines: Seq<Seq<char>>, h: Seq<char>)
    ensures
        entry_for(parse_lines_spec(lines), h) == entry_of_lines(lines, h),
    decreases lines.len(),
{
    if lines.len() > 0 {
        lemma_entry_of_lines(lines.drop_last(), h);
        lemma_entry_for_apply(parse_lines_spec(lines.drop_last()), lines.last(), h);
    }
}

/// The fragments in `lines` are those before its last line and the last
/// line's own.
proof fn lemma_has_frag_last(lines: Seq<Seq<char>>, h: Seq<char>, i: usize, c: Seq<char>)
    requires
        lines.len() > 0,
    ensures
        has_frag(lines, h, i, c) <==> (has_frag(lines.drop_last(), h, i, c) || fragment_of(
            lines.last(),
        ) == Some((h, i, c))),
{
    let p = lines.drop_last();
    if has_frag(lines, h, i, c) {
        let k = choose|k: int| 0 <= k < lines.len() && #[trigger] fragment_of(lines[k]) == Some((h, i, c));
        if k < lines.len() - 1 {
            assert(p[k] == lines[k]);
            assert(fragment_of(p[k]) == Some((h, i, c)));
        }
    }
    if has_frag(p, h, i, c) {
        let k = choose|k: int| 0 <= k < p.len() && #[trigger] fragment_of(p[k]) == Some((h, i, c));
        assert(lines[k] == p[k]);
        assert(fragment_of(lines[k]) == Some((h, i, c)));
    }
    if fragment_of(lines.last()) == Some((h, i, c)) {
        assert(fragment_of(lines[lines.len() - 1]) == Some((h, i, c)));
    }
}

/// Lines with the same fragments of `h` describe the same entry of `h`.
proof fn lemma_closed_same(a: Seq<Seq<char>>, b: Seq<Seq<char>>, h: Seq<char>)
    requires
        consistent(a),
        consistent(b),
        forall|i: usize, c: Seq<char>| #[trigger] has_frag(a, h, i, c) <==> has_frag(b, h, i, c),
    ensures
        closed_entry(a, h) == closed_entry(b, h),
        mentions(a, h) == mentions(b, h),
{
    let ea = closed_entry(a, h);
    let eb = closed_entry(b, h);
    assert forall|i: usize| #[trigger] ea.fragments.contains_key(i) implies eb.fragments.contains_key(i)
        && ea.fragments[i] == eb.fragments[i] by {
        let c = choose|c: Seq<char>| #[trigger] has_frag(a, h, i, c);
        assert(has_frag(b, h, i, c));
        lemma_unique(a, h, i, c);
        lemma_unique(b, h, i, c);
    }
    assert forall|i: usize| #[trigger] eb.fragments.contains_key(i) implies ea.fragments.contains_key(i) by {
        let c = choose|c: Seq<char>| #[trigger] has_frag(b, h, i, c);
        assert(has_frag(a, h, i, c));
    }
    assert(ea.fragments =~= eb.fragments);
    if exists|c: Seq<char>| #[trigger] has_frag(a, h, 1, c) {
        let c = choose|c: Seq<char>| #[trigger] has_frag(a, h, 1, c);
        assert(has_frag(b, h, 1, c));
        lemma_unique(a, h, 1, c);
        lemma_unique(b, h, 1, c);
    } else {
        assert(!exists|c: Seq<char>| #[trigger] has_frag(b, h, 1, c)) by {
            if exists|c: Seq<char>| #[trigger] has_frag(b, h, 1, c) {
                let c = choose|c: Seq<char>| #[trigger] has_frag(b, h, 1, c);
                assert(has_frag(a, h, 1, c));
            }
        }
    }
    if mentions(a, h) {
        let (i, c) = choose|i: usize, c: Seq<char>| #[trigger] has_frag(a, h, i, c);
        assert(has_frag(b, h, i, c));
    }
    if mentions(b, h) {
        let (i, c) = choose|i: usize, c: Seq<char>| #[trigger] has_frag(b, h, i, c);
        assert(has_frag(a, h, i, c));
    }
}

/// In consistent lines, the entry that reading them builds for `h` is the
/// one their fragments of `h` describe.
pub proof fn lemma_closed_entry(lines: Seq<Seq<char>>, h: Seq<char>)
    requires
        consistent(lines),
    ensures
        entry_of_lines(lines, h) == if mentions(lines, h) {
            Some(closed_entry(lines, h))
        } else {
            None::<EntryModel>
        },
    decreases lines.len(),
{
    if lines.len() == 0 {
        if mentions(lines, h) {
            let (i, c) = choose|i: usize, c: Seq<char>| #[trigger] has_frag(lines, h, i, c);
            assert(has_frag(lines, h, i, c));
        }
    } else {
        let p = lines.drop_last();
        let l = lines.last();
        assert forall|h0: Seq<char>, i: usize, c1: Seq<char>, c2: Seq<char>|
            #[trigger] has_frag(p, h0, i, c1) && #[trigger] has_frag(p, h0, i, c2) implies c1 == c2 by {
            lemma_has_frag_last(lines, h0, i, c1);
            lemma_has_frag_last(lines, h0, i, c2);
        }
        lemma_closed_entry(p, h);
        assert forall|i: usize, c: Seq<char>| #[trigger] has_frag(lines, h, i, c) <==> (has_frag(p, h, i, c)
            || fragment_of(l) == Some((h, i, c))) by {
            lemma_has_frag_last(lines, h, i, c);
        }
        let of_h = match fragment_of(l) {
            Some((h2, _, _)) => h2 == h,
            None => false,
        };
        if of_h {
            let (h2, i, c) = fragment_of(l).unwrap();
            assert(has_frag(lines, h, i, c));
            let base = if mentions(p, h) {
                closed_entry(p, h)
            } else {
                empty_entry(h)
            };
            let got = entry_step(base, i, c);
            let want = closed_entry(lines, h);
            assert(mentions(lines, h));
            // The fragments.
            assert forall|j: usize| #[trigger] want.fragments.contains_key(j) implies got.fragments.contains_key(j)
                && got.fragments[j] == want.fragments[j] by {
                let cj = choose|cj: Seq<char>| #[trigger] has_frag(lines, h, j, cj);
                lemma_unique(lines, h, j, cj);
                if j != i {
                    assert(has_frag(p, h, j, cj));
                    assert(mentions(p, h));
                    lemma_unique(p, h, j, cj);
                } else {
                    lemma_unique(lines, h, i, c);
                }
            }
            assert forall|j: usize| #[trigger] got.fragments.contains_key(j) implies want.fragments.contains_key(j) by {
                if j != i {
                    if mentions(p, h) {
                        let cj = choose|cj: Seq<char>| #[trigger] has_frag(p, h, j, cj);
                        assert(has_frag(lines, h, j, cj));
                    }
                }
            }
            assert(got.fragments =~= want.fragments);
            // The meta information.
            lemma_unique(lines, h, i, c);
            if i == 1 {
                if meta_of(c) is None {
                    if mentions(p, h) && exists|c1: Seq<char>| #[trigger] has_frag(p, h, 1, c1) {
                        let c1 = choose|c1: Seq<char>| #[trigger] has_frag(p, h, 1, c1);
                        assert(has_frag(lines, h, 1, c1));
                        lemma_unique(lines, h, 1, c1);
                        lemma_unique(p, h, 1, c1);
                    }
                }
            } else {
                if exists|c1: Seq<char>| #[trigger] has_frag(lines, h, 1, c1) {
                    let c1 = choose|c1: Seq<char>| #[trigger] has_frag(lines, h, 1, c1);
                    assert(has_frag(p, h, 1, c1));
                    assert(mentions(p, h));
                    lemma_unique(lines, h, 1, c1);
                    lemma_unique(p, h, 1, c1);
                } else {
                    assert(!exists|c1: Seq<char>| #[trigger] has_frag(p, h, 1, c1)) by {
                        if exists|c1: Seq<char>| #[trigger] has_frag(p, h, 1, c1) {
                            let c1 = choose|c1: Seq<char>| #[trigger] has_frag(p, h, 1, c1);
                            assert(has_frag(lines, h, 1, c1));
                        }
                    }
                }
            }
            assert(got == want);
        } else {
            assert forall|i: usize, c: Seq<char>| #[trigger] has_frag(lines, h, i, c) <==> has_frag(p, h, i, c) by {
                lemma_has_frag_last(lines, h, i, c);
            }
            lemma_closed_same(lines, p, h);
        }
    }
}

/// The order of scanning does not matter: two lists of lines that hold the
/// same lines (in any order, any number of times), no two of which give one
/// fragment index of one hash different chunks, yield the same entry for
/// every hash.
pub proof fn lemma_scan_order_irrelevant(a: Seq<Seq<char>>, b: Seq<Seq<char>>, h: Seq<char>)
    requires
        forall|l: Seq<char>| #[trigger] a.contains(l) <==> b.contains(l),
        consistent(a),
    ensures
        entry_for(parse_lines_spec(a), h) == entry_for(parse_lines_spec(b), h),
{
    assert forall|h0: Seq<char>, i: usize, c: Seq<char>| #[trigger] has_frag(a, h0, i, c) <==> has_frag(b, h0, i, c) by {
        if has_frag(a, h0, i, c) {
            let k = choose|k: int| 0 <= k < a.len() && #[trigger] fragment_of(a[k]) == Some((h0, i, c));
            assert(a.contains(a[k]));
            let k2 = choose|k2: int| 0 <= k2 < b.len() && b[k2] == a[k];
            assert(fragment_of(b[k2]) == Some((h0, i, c)));
        }
        if has_frag(b, h0, i, c) {
            let k = choose|k: int| 0 <= k < b.len() && #[trigger] fragment_of(b[k]) == Some((h0, i, c));
            assert(b.contains(b[k]));
            assert(a.contains(b[k]));
            let k2 = choose|k2: int| 0 <= k2 < a.len() && a[k2] == b[k];
            assert(fragment_of(a[k2]) == Some((h0, i, c)));
        }
    }
    assert(consistent(b)) by {
        assert forall|h0: Seq<char>, i: usize, c1: Seq<char>, c2: Seq<char>|
            #[trigger] has_frag(b, h0, i, c1) && #[trigger] has_frag(b, h0, i, c2) implies c1 == c2 by {
            assert(has_frag(a, h0, i, c1));
            assert(has_frag(a, h0, i, c2));
        }
    }
    lemma_entry_of_lines(a, h);
    lemma_entry_of_lines(b, h);
    lemma_closed_entry(a, h);
    lemma_closed_entry(b, h);
    lemma_closed_same(a, b, h);
}

} // verus!
