//! What reading back gives of what encoding wrote: the fragment lines that
//! `encode` produces parse into one complete entry that rebuilds the data.
use vstd::prelude::*;

use crate::codec::{
    b64_encoded, hex_lower, hex_lower_digit, lemma_percent_roundtrip,
    percent_encoded, sha256_digest,
};
use crate::decode::{
    apply_line, complete, empty_entry, entry_step, find_entry, first_marker_from,
    first_missing, fragment_of, is_hex_char, joined_fragments, lemma_missing_upto_empty, marker_at,
    meta_of, parse_lines_spec, payload_spec, payload_text, reconstruct_spec, EntryModel, RebuildError,
};
use crate::encode::{
    chunk_of, compress_flag, div_ceil, encoded_with, fragment_text, fragments_from_parts, hash_data_of,
    hash_of, max_bytes_of, qr_cap_of, EcLevel,
};
use crate::text::{
    is_digit, lemma_find_from_at, lemma_pad3, pad3,
    parse_usize_spec,
};
use crate::ui::decode_panel::{location_for, step_for, LocationModel, OutputDir, StepModel};
use crate::ui::encode_panel::direct_text_name;
use vstd::utf8::{encode_utf8, encode_utf8_decode_utf8, encode_utf8_valid_utf8};

verus! {

/// The conditions under which the fragment format carries the data through:
/// at most 999 fragments (the index has three digits), and the header
/// `<count>:<name>:<flag>:` fits in the first fragment.
pub open spec fn fits_format(
    payload: Seq<u8>,
    filename: Seq<char>,
    compress: bool,
    level: EcLevel,
) -> bool {
    let hd = hash_data_of(percent_encoded(filename), compress, b64_encoded(payload));
    let cap = qr_cap_of(level) as nat;
    let n = div_ceil(4 + hd.len(), cap);
    &&& n <= 999
    &&& 6 + percent_encoded(filename).len() + compress_flag(compress).len() <= cap
}

/// The entry that the first `k` fragments build.
pub open spec fn entry_after(
    hash: Seq<char>,
    n: usize,
    filename: Seq<char>,
    compress: bool,
    chunks: Seq<Seq<char>>,
    k: nat,
) -> EntryModel {
    EntryModel {
        hash,
        qr_num: Some(n),
        filename: Some(filename),
        compressed: Some(compress),
        fragments: Map::new(|j: usize| 1 <= j <= k, |j: usize| chunks[j - 1]),
    }
}

/// The hash is eight hex digits.
proof fn lemma_hash_shape(b: Seq<u8>)
    requires
        b.len() == 4,
    ensures
        hex_lower(b).len() == 8,
        forall|k: int| 0 <= k < 8 ==> is_hex_char(#[trigger] hex_lower(b)[k]),
{
    reveal_with_fuel(hex_lower, 5);
    assert forall|d: u8| d < 16 implies is_hex_char(#[trigger] hex_lower_digit(d)) by {}
    let b1 = b.drop_first();
    let b2 = b1.drop_first();
    let b3 = b2.drop_first();
    let b4 = b3.drop_first();
    assert(b4.len() == 0);
    assert(b[0] / 16 < 16 && b[0] % 16 < 16);
    assert(b1[0] / 16 < 16 && b1[0] % 16 < 16);
    assert(b2[0] / 16 < 16 && b2[0] % 16 < 16);
    assert(b3[0] / 16 < 16 && b3[0] % 16 < 16);
    let h = hex_lower(b);
    assert(h =~= seq![
        hex_lower_digit(b[0] / 16),
        hex_lower_digit(b[0] % 16),
        hex_lower_digit(b1[0] / 16),
        hex_lower_digit(b1[0] % 16),
        hex_lower_digit(b2[0] / 16),
        hex_lower_digit(b2[0] % 16),
        hex_lower_digit(b3[0] / 16),
        hex_lower_digit(b3[0] % 16),
    ]);
}

/// A fragment line parses back into its hash, index and chunk.
proof fn lemma_fragment_parses(hash: Seq<char>, i: nat, chunk: Seq<char>)
    requires
        hash.len() == 8,
        forall|k: int| 0 <= k < 8 ==> is_hex_char(#[trigger] hash[k]),
        i + 1 <= 999,
    ensures
        fragment_of(fragment_text(hash, i, chunk)) == Some((hash, (i + 1) as usize, chunk)),
{
    lemma_pad3(i + 1);
    let p = pad3(i + 1);
    let f = fragment_text(hash, i, chunk);
    assert(f.len() == 13 + chunk.len());
    assert forall|k: int| 0 <= k < 8 implies is_hex_char(#[trigger] f[k]) by {
        assert(f[k] == hash[k]);
    }
    assert(f[8] == ':');
    assert(f[9] == p[0] && f[10] == p[1] && f[11] == p[2]);
    assert(is_digit(p[0]) && is_digit(p[1]) && is_digit(p[2]));
    assert(f[12] == ':');
    assert(marker_at(f, 0));
    assert(first_marker_from(f, 0) == Some(0int));
    assert(f.subrange(0, 8) =~= hash);
    assert(f.subrange(9, 12) =~= p);
    assert(f.subrange(13, f.len() as int) =~= chunk);
}

/// The layout of the joined text `<count>:<name>:<flag>:<base64>`.
proof fn lemma_header(n: nat, enc: Seq<char>, compress: bool, b64: Seq<char>)
    requires
        n <= 999,
        forall|i: int| 0 <= i < enc.len() ==> #[trigger] enc[i] != ':',
    ensures
        ({
            let full = pad3(n) + seq![':'] + hash_data_of(enc, compress, b64);
            let fl = compress_flag(compress);
            let a: int = 4 + enc.len() as int;
            let b: int = 5 + enc.len() + fl.len() as int;
            &&& full.len() == b + 1 + b64.len()
            &&& forall|k: int| 0 <= k < 3 ==> #[trigger] full[k] != ':' && is_digit(full[k])
            &&& full[3] == ':'
            &&& forall|k: int| 4 <= k < a ==> #[trigger] full[k] != ':'
            &&& full[a] == ':'
            &&& forall|k: int| a < k < b ==> #[trigger] full[k] != ':'
            &&& full[b] == ':'
            &&& full.subrange(0, 3) == pad3(n)
            &&& full.subrange(4, a) == enc
            &&& full.subrange(a + 1, b) == fl
            &&& full.subrange(b + 1, full.len() as int) == b64
        }),
{
    lemma_pad3(n);
    let p = pad3(n);
    let fl = compress_flag(compress);
    let full = p + seq![':'] + hash_data_of(enc, compress, b64);
    let a: int = 4 + enc.len() as int;
    let b: int = 5 + enc.len() + fl.len() as int;
    assert(full =~= p + seq![':'] + enc + seq![':'] + fl + seq![':'] + b64);
    assert forall|k: int| 0 <= k < 3 implies #[trigger] full[k] != ':' && is_digit(full[k]) by {
        assert(full[k] == p[k]);
    }
    assert forall|k: int| 4 <= k < a implies #[trigger] full[k] != ':' by {
        assert(full[k] == enc[k - 4]);
    }
    assert forall|k: int| a < k < b implies #[trigger] full[k] != ':' by {
        assert(full[k] == fl[k - a - 1]);
    }
    assert(full.subrange(0, 3) =~= p);
    assert(full.subrange(4, a) =~= enc);
    assert(full.subrange(a + 1, b) =~= fl);
    assert(full.subrange(b + 1, full.len() as int) =~= b64);
}

/// The meta information of the first chunk is the count, the file name and
/// the compression flag.
proof fn lemma_first_chunk_meta(
    n: nat,
    filename: Seq<char>,
    compress: bool,
    b64: Seq<char>,
    cap: nat,
)
    requires
        1 <= n <= 999,
        6 + percent_encoded(filename).len() + compress_flag(compress).len() <= cap,
    ensures
        ({
            let full = pad3(n) + seq![':'] + hash_data_of(percent_encoded(filename), compress, b64);
            meta_of(chunk_of(full, 0, cap)) == Some((n as usize, filename, compress))
        }),
{
    let enc = percent_encoded(filename);
    lemma_percent_roundtrip(filename);
    lemma_header(n, enc, compress, b64);
    lemma_pad3(n);
    let full = pad3(n) + seq![':'] + hash_data_of(enc, compress, b64);
    let fl = compress_flag(compress);
    let a: int = 4 + enc.len() as int;
    let b: int = 5 + enc.len() + fl.len() as int;
    let c = chunk_of(full, 0, cap);
    assert(c.len() > b);
    assert forall|k: int| 0 <= k < c.len() implies #[trigger] c[k] == full[k] by {}
    lemma_find_from_at(c, ':', 0, 3);
    lemma_find_from_at(c, ':', 4, a);
    lemma_find_from_at(c, ':', a + 1, b);
    assert(c.subrange(0, 3) =~= full.subrange(0, 3));
    assert(c.subrange(4, a) =~= full.subrange(4, a));
    assert(c.subrange(a + 1, b) =~= full.subrange(a + 1, b));
    let p = pad3(n);
    assert(p[0] != '+');
    assert(parse_usize_spec(p) == Some(n as usize));
    if !compress {
        assert(fl.len() == 0);
    }
}

/// After `k` fragments, the lines have built exactly one entry.
proof fn lemma_entries_after(
    hash: Seq<char>,
    n: usize,
    filename: Seq<char>,
    compress: bool,
    chunks: Seq<Seq<char>>,
    frags: Seq<Seq<char>>,
    k: nat,
)
    requires
        1 <= k <= n <= 999,
        chunks.len() == n,
        frags.len() == n,
        hash.len() == 8,
        forall|j: int| 0 <= j < 8 ==> is_hex_char(#[trigger] hash[j]),
        forall|i: int|
            0 <= i < n ==> #[trigger] frags[i] == fragment_text(hash, i as nat, chunks[i]),
        meta_of(chunks[0]) == Some((n, filename, compress)),
    ensures
        parse_lines_spec(frags.take(k as int)) == seq![
            entry_after(hash, n, filename, compress, chunks, k),
        ],
    decreases k,
{
    let t = frags.take(k as int);
    assert(t.drop_last() =~= frags.take(k - 1));
    lemma_fragment_parses(hash, (k - 1) as nat, chunks[k - 1]);
    assert(t.last() == frags[k - 1]);
    let c = chunks[k - 1];
    if k == 1 {
        assert(frags.take(0) =~= Seq::<Seq<char>>::empty());
        assert(parse_lines_spec(frags.take(0)) =~= Seq::<EntryModel>::empty());
        let e = entry_step(empty_entry(hash), 1, c);
        assert(e.fragments =~= entry_after(hash, n, filename, compress, chunks, 1).fragments);
        assert(apply_line(Seq::<EntryModel>::empty(), frags[0]) =~= seq![e]);
    } else {
        lemma_entries_after(hash, n, filename, compress, chunks, frags, (k - 1) as nat);
        let prev = entry_after(hash, n, filename, compress, chunks, (k - 1) as nat);
        let es = seq![prev];
        assert(find_entry(es, hash, 0) == Some(0int));
        let e = entry_step(prev, k as usize, c);
        assert(e.fragments =~= entry_after(hash, n, filename, compress, chunks, k).fragments);
        assert(apply_line(es, frags[k - 1]) =~= seq![e]);
    }
}

/// The chunks joined in order give back the joined text.
#[verifier::spinoff_prover]
proof fn lemma_joined(full: Seq<char>, cap: nat, n: nat, chunks: Seq<Seq<char>>, f: Map<usize, Seq<char>>, k: nat)
    requires
        cap > 0,
        k <= n <= 999,
        chunks.len() == n,
        (n - 1) * cap < full.len() || n == 0,
        forall|i: int| 0 <= i < n ==> #[trigger] chunks[i] == chunk_of(full, i as nat, cap),
        forall|j: usize| 1 <= j <= n ==> #[trigger] f.contains_key(j) && f[j] == chunks[j - 1],
    ensures
        joined_fragments(f, k) == full.subrange(0, if k * cap < full.len() { (k * cap) as int } else { full.len() as int }),
    decreases k,
{
    if k > 0 {
        lemma_joined(full, cap, n, chunks, f, (k - 1) as nat);
        assert((k - 1) * cap <= (n - 1) * cap) by (nonlinear_arith)
            requires
                k <= n,
        ;
        assert(k * cap == (k - 1) * cap + cap) by (nonlinear_arith);
        assert(f.contains_key(k as usize));
        assert(f[k as usize] == chunks[k - 1]);
        assert(joined_fragments(f, k) == joined_fragments(f, (k - 1) as nat) + f[k as usize]);
        let prev_end = if (k - 1) * cap < full.len() { ((k - 1) * cap) as int } else { full.len() as int };
        assert(prev_end == (k - 1) * cap);
        assert(full.subrange(0, prev_end) + chunks[k - 1] =~= full.subrange(
            0,
            if k * cap < full.len() { (k * cap) as int } else { full.len() as int },
        ));
    } else {
        assert(full.subrange(0, 0) =~= Seq::<char>::empty());
    }
}

/// Encoding and reading back: whatever `encode` returns, when the data
/// fits the format (see `fits_format`), its fragment lines parse into a
/// single complete entry, under the hash that starts the first line, that
/// counts as many fragments as there are lines and has the original file
/// name and compression flag, and rebuilding that entry gives the original
/// data.
#[verifier::spinoff_prover]
#[verifier::rlimit(40)]
pub proof fn lemma_encode_decode_roundtrip(
    data: Seq<u8>,
    filename: Seq<char>,
    compress: bool,
    level: EcLevel,
    payload: Seq<u8>,
    fragments: Seq<Seq<char>>,
)
    requires
        encoded_with(data, filename, compress, level, payload, fragments),
        fits_format(payload, filename, compress, level),
    ensures
        parse_lines_spec(fragments).len() == 1,
        parse_lines_spec(fragments)[0].hash == fragments[0].subrange(0, 8),
        parse_lines_spec(fragments)[0].qr_num == Some(fragments.len() as usize),
        parse_lines_spec(fragments)[0].filename == Some(filename),
        parse_lines_spec(fragments)[0].compressed == Some(compress),
        complete(parse_lines_spec(fragments)[0]),
        reconstruct_spec(parse_lines_spec(fragments)[0]) == Ok::<Seq<u8>, RebuildError>(data),
{
    let enc = percent_encoded(filename);
    let b64 = b64_encoded(payload);
    let hd = hash_data_of(enc, compress, b64);
    let cap = qr_cap_of(level) as nat;
    let n = div_ceil(4 + hd.len(), cap);
    let full = pad3(n) + seq![':'] + hd;
    let hash = hash_of(hd);
    assert(fragments == fragments_from_parts(enc, compress, b64, hash, level));
    lemma_percent_roundtrip(filename);
    lemma_hash_shape(sha256_digest(encode_utf8(hd)).take(4));
    lemma_div_ceil_covers(4 + hd.len(), cap);
    let chunks = Seq::new(n, |i: int| chunk_of(full, i as nat, cap));
    assert forall|i: int| 0 <= i < n implies #[trigger] fragments[i] == fragment_text(
        hash,
        i as nat,
        chunks[i],
    ) by {}
    lemma_first_chunk_meta(n, filename, compress, b64, cap);
    assert(meta_of(chunks[0]) == Some((n as usize, filename, compress)));
    lemma_entries_after(hash, n as usize, filename, compress, chunks, fragments, n);
    assert(fragments.take(n as int) =~= fragments);
    let e = entry_after(hash, n as usize, filename, compress, chunks, n);
    assert(parse_lines_spec(fragments) == seq![e]);
    assert(fragments[0].subrange(0, 8) =~= hash);

    // Complete: every index 1..=n is present.
    let f = e.fragments;
    assert forall|j: usize| 1 <= j <= n implies #[trigger] f.contains_key(j) && f[j] == chunks[j - 1] by {}
    lemma_missing_upto_empty(f, n);
    lemma_first_missing_none(f, n);

    // Joining the chunks gives the whole text back.
    crate::encode::lemma_chunk_start(4 + hd.len(), cap, (n - 1) as nat);
    lemma_joined(full, cap, n, chunks, f, n);
    lemma_pad3(n);
    assert(full.len() == 4 + hd.len());
    assert(!(n * cap < full.len()));
    assert(full.subrange(0, full.len() as int) =~= full);
    assert(joined_fragments(f, n) =~= full);

    // The payload follows the third `:`.
    lemma_header(n, enc, compress, b64);
    let fl = compress_flag(compress);
    let a: int = 4 + enc.len() as int;
    let bpos: int = 5 + enc.len() + fl.len() as int;
    lemma_find_from_at(full, ':', 0, 3);
    lemma_find_from_at(full, ':', 4, a);
    lemma_find_from_at(full, ':', a + 1, bpos);
    assert(payload_text(full) == Some(b64));
    assert(payload_spec(e) == Ok::<Seq<char>, Seq<char>>(b64));
}

/// `ceil(a / b)` chunks of `b` hold `a` and one chunk fewer does not.
pub proof fn lemma_div_ceil_covers(a: nat, b: nat)
    requires
        b > 0,
    ensures
        div_ceil(a, b) * b >= a,
        a > 0 ==> div_ceil(a, b) >= 1 && (div_ceil(a, b) - 1) * b < a,
{
    let q = a / b;
    let r = a % b;
    vstd::arithmetic::div_mod::lemma_fundamental_div_mod(a as int, b as int);
    assert(a == q * b + r);
    assert((q + 1) * b == q * b + b) by (nonlinear_arith);
    if a > 0 && r == 0 {
        assert(q >= 1) by (nonlinear_arith)
            requires
                a == q * b + r,
                r == 0,
                a > 0,
        ;
        assert((q - 1) * b == q * b - b) by (nonlinear_arith);
    }
}

/// Every fragment that `encode` returns fits in one QR code of its level:
/// at most `max_bytes` characters, as long as there are at most 999
/// fragments (beyond that the index takes more than three digits).
pub proof fn lemma_fragment_fits_qr(
    data: Seq<u8>,
    filename: Seq<char>,
    compress: bool,
    level: EcLevel,
    payload: Seq<u8>,
    fragments: Seq<Seq<char>>,
    i: int,
)
    requires
        encoded_with(data, filename, compress, level, payload, fragments),
        fragments.len() <= 999,
        0 <= i < fragments.len(),
    ensures
        fragments[i].len() <= max_bytes_of(level),
{
    let hd = hash_data_of(percent_encoded(filename), compress, b64_encoded(payload));
    let cap = qr_cap_of(level) as nat;
    let n = div_ceil(4 + hd.len(), cap);
    let full = pad3(n) + seq![':'] + hd;
    lemma_hash_shape(sha256_digest(encode_utf8(hd)).take(4));
    lemma_pad3((i + 1) as nat);
    crate::encode::lemma_chunk_start(4 + hd.len(), cap, i as nat);
    lemma_pad3(n);
    let c = chunk_of(full, i as nat, cap);
    assert((i + 1) * cap == i * cap + cap) by (nonlinear_arith);
    assert(c.len() <= cap) by (nonlinear_arith)
        requires
            c.len() == (if (i + 1) * cap < full.len() { (i + 1) * cap } else { full.len() as int })
                - i * cap,
            i * cap < full.len(),
            cap > 0,
    {
        assert((i + 1) * cap == i * cap + cap);
    }
    assert(fragments[i] == fragment_text(hash_of(hd), i as nat, c));
}

/// Nothing is missing when every index is present.
proof fn lemma_first_missing_none(f: Map<usize, Seq<char>>, n: nat)
    requires
        n <= usize::MAX,
        forall|j: usize| 1 <= j <= n ==> #[trigger] f.contains_key(j),
    ensures
        first_missing(f, n) is None,
    decreases n,
{
    if n > 0 {
        lemma_first_missing_none(f, (n - 1) as nat);
        assert(f.contains_key(n as usize));
    }
}

/// Text typed into the encoding panel comes back unchanged from the
/// decoding panel: the fragments of the text (when they fit the format)
/// parse to one entry, which restores to that very text and asks for no
/// file to be written.
pub proof fn lemma_typed_text_roundtrip(
    text: Seq<char>,
    compress: bool,
    level: EcLevel,
    payload: Seq<u8>,
    fragments: Seq<Seq<char>>,
    hash: Seq<char>,
    dir: OutputDir,
    inputs: Seq<Seq<char>>,
    step: StepModel,
    write: Option<(LocationModel, Seq<u8>)>,
)
    requires
        encoded_with(encode_utf8(text), direct_text_name(), compress, level, payload, fragments),
        fits_format(payload, direct_text_name(), compress, level),
        step_for(parse_lines_spec(fragments)[0], hash, dir, inputs, step, write),
    ensures
        step == StepModel::Text(text),
        write is None,
{
    lemma_encode_decode_roundtrip(encode_utf8(text), direct_text_name(), compress, level, payload, fragments);
    encode_utf8_valid_utf8(text);
    encode_utf8_decode_utf8(text);
}

/// A file comes back unchanged: the fragments of its data (when they fit
/// the format) parse to one entry, which restores to a request to write
/// exactly that data under the file's name where the output choice says.
pub proof fn lemma_file_roundtrip(
    data: Seq<u8>,
    filename: Seq<char>,
    compress: bool,
    level: EcLevel,
    payload: Seq<u8>,
    fragments: Seq<Seq<char>>,
    hash: Seq<char>,
    dir: OutputDir,
    inputs: Seq<Seq<char>>,
    step: StepModel,
    write: Option<(LocationModel, Seq<u8>)>,
)
    requires
        filename != direct_text_name(),
        encoded_with(data, filename, compress, level, payload, fragments),
        fits_format(payload, filename, compress, level),
        step_for(parse_lines_spec(fragments)[0], hash, dir, inputs, step, write),
    ensures
        step == StepModel::Write,
        write == Some((location_for(dir, inputs, filename), data)),
{
    lemma_encode_decode_roundtrip(data, filename, compress, level, payload, fragments);
}

/// The chunks of fragment lines (what follows `<hash>:<index>:`), joined
/// in order.
pub open spec fn joined_chunks(frags: Seq<Seq<char>>) -> Seq<char>
    decreases frags.len(),
{
    if frags.len() == 0 {
        seq![]
    } else {
        joined_chunks(frags.drop_last()) + frags.last().subrange(13, frags.last().len() as int)
    }
}

/// The first `k` chunks give the text up to `k * cap`.
proof fn lemma_joined_prefix(
    enc: Seq<char>,
    compress: bool,
    b64: Seq<char>,
    hash: Seq<char>,
    level: EcLevel,
    k: nat,
)
    requires
        hash.len() == 8,
        fragments_from_parts(enc, compress, b64, hash, level).len() <= 999,
        k <= fragments_from_parts(enc, compress, b64, hash, level).len(),
    ensures
        ({
            let hd = hash_data_of(enc, compress, b64);
            let cap = qr_cap_of(level) as nat;
            let n = div_ceil(4 + hd.len(), cap);
            let full = pad3(n) + seq![':'] + hd;
            joined_chunks(fragments_from_parts(enc, compress, b64, hash, level).take(k as int))
                == full.subrange(0, if k * cap < full.len() { (k * cap) as int } else { full.len() as int })
        }),
    decreases k,
{
    let frags = fragments_from_parts(enc, compress, b64, hash, level);
    let hd = hash_data_of(enc, compress, b64);
    let cap = qr_cap_of(level) as nat;
    let n = div_ceil(4 + hd.len(), cap);
    let full = pad3(n) + seq![':'] + hd;
    lemma_pad3(n);
    lemma_div_ceil_covers(4 + hd.len(), cap);
    if k == 0 {
        assert(frags.take(0) =~= Seq::<Seq<char>>::empty());
        assert(full.subrange(0, 0) =~= Seq::<char>::empty());
        assert(k * cap == 0) by (nonlinear_arith)
            requires
                k == 0,
        ;
        assert(joined_chunks(frags.take(k as int)) == full.subrange(0, 0));
    } else {
        let i = (k - 1) as nat;
        lemma_joined_prefix(enc, compress, b64, hash, level, i);
        assert(frags.take(k as int).drop_last() =~= frags.take(i as int));
        lemma_pad3(i + 1);
        crate::encode::lemma_chunk_start(4 + hd.len(), cap, i);
        let c = chunk_of(full, i, cap);
        let f = frags[i as int];
        assert(f == fragment_text(hash, i, c));
        assert(f.subrange(13, f.len() as int) =~= c);
        let t = frags.take(k as int);
        assert(t.last() == f);
        assert(joined_chunks(t) == joined_chunks(t.drop_last()) + f.subrange(13, f.len() as int));
        assert(k * cap == i * cap + cap) by (nonlinear_arith)
            requires
                k == i + 1,
        ;
        let prev_end = if i * cap < full.len() { (i * cap) as int } else { full.len() as int };
        assert(prev_end == i * cap);
        assert(full.subrange(0, prev_end) + c =~= full.subrange(
            0,
            if k * cap < full.len() { (k * cap) as int } else { full.len() as int },
        ));
        assert(joined_chunks(t) == full.subrange(
            0,
            if k * cap < full.len() { (k * cap) as int } else { full.len() as int },
        ));
    }
}

/// No character is lost: with at most 999 fragments, their chunks joined
/// in order are exactly `<count>:<name>:<flag>:<base64>`; every chunk but
/// the last holds `cap` characters and the last holds 1 to `cap`, so the
/// count is the fewest fragments that hold the text.
pub proof fn lemma_no_character_lost(
    enc: Seq<char>,
    compress: bool,
    b64: Seq<char>,
    hash: Seq<char>,
    level: EcLevel,
)
    requires
        hash.len() == 8,
        fragments_from_parts(enc, compress, b64, hash, level).len() <= 999,
    ensures
        ({
            let frags = fragments_from_parts(enc, compress, b64, hash, level);
            let hd = hash_data_of(enc, compress, b64);
            let cap = qr_cap_of(level) as nat;
            &&& joined_chunks(frags) == pad3(frags.len()) + seq![':'] + hd
            &&& pad3(frags.len()).len() == 3
            &&& frags.len() >= 1
            &&& forall|i: int| 0 <= i < frags.len() - 1 ==> #[trigger] frags[i].len() == 13 + cap
            &&& 13 + 1 <= frags.last().len() <= 13 + cap
        }),
{
    let frags = fragments_from_parts(enc, compress, b64, hash, level);
    let hd = hash_data_of(enc, compress, b64);
    let cap = qr_cap_of(level) as nat;
    let n = div_ceil(4 + hd.len(), cap);
    let full = pad3(n) + seq![':'] + hd;
    lemma_pad3(n);
    lemma_div_ceil_covers(4 + hd.len(), cap);
    lemma_joined_prefix(enc, compress, b64, hash, level, n);
    assert(frags.take(n as int) =~= frags);
    assert(full.subrange(0, full.len() as int) =~= full);
    assert forall|i: int| 0 <= i < frags.len() - 1 implies #[trigger] frags[i].len() == 13 + cap by {
        lemma_pad3((i + 1) as nat);
        assert((i + 1) * cap <= (n - 1) * cap) by (nonlinear_arith)
            requires
                i + 1 <= n - 1,
        ;
        assert((i + 1) * cap == i * cap + cap) by (nonlinear_arith);
    }
    let l = (n - 1) as nat;
    lemma_pad3(n);
    assert(l * cap < full.len());
    assert(n * cap == l * cap + cap) by (nonlinear_arith)
        requires
            n == l + 1,
    ;
    assert(frags.last() == fragment_text(hash, l, chunk_of(full, l, cap)));
}

/// What `encode` returns keeps every character: with at most 999
/// fragments, their chunks joined give `<count>:<name>:<flag>:<base64>` of
/// the payload, and each fragment but the last is full.
pub proof fn lemma_encode_keeps_every_character(
    data: Seq<u8>,
    filename: Seq<char>,
    compress: bool,
    level: EcLevel,
    payload: Seq<u8>,
    fragments: Seq<Seq<char>>,
)
    requires
        encoded_with(data, filename, compress, level, payload, fragments),
        fragments.len() <= 999,
    ensures
        joined_chunks(fragments) == pad3(fragments.len()) + seq![':'] + hash_data_of(
            percent_encoded(filename),
            compress,
            b64_encoded(payload),
        ),
        forall|i: int|
            0 <= i < fragments.len() - 1 ==> #[trigger] fragments[i].len() == 13 + qr_cap_of(level),
{
    let hd = hash_data_of(percent_encoded(filename), compress, b64_encoded(payload));
    lemma_hash_shape(sha256_digest(encode_utf8(hd)).take(4));
    lemma_no_character_lost(percent_encoded(filename), compress, b64_encoded(payload), hash_of(hd), level);
}

} // verus!
