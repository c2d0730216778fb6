//! Turning data into fragment lines: optional xz compression, Base64, a
//! header with the percent-encoded file name, a short SHA-256 hash, and a
//! split into chunks that each fit one QR code.
use vstd::prelude::*;
use vstd::utf8::encode_utf8;

use crate::codec::{
    b64_decoded, b64_encode, b64_encoded, lemma_b64_encoded_len, hex_encode, hex_lower, percent_encode_name,
    percent_encoded, sha256, sha256_digest,
};
use crate::decode::xz_decoded;
use crate::text::{append_chars, append_str, lemma_pad3, pad3, pad3_chars, prefixed, str_to_chars, string_from_chars};

use std::io::Write;
use xz2::write::XzEncoder;

pub mod fragment;

verus! {

/// QR error-correction level.
#[derive(Debug, Clone, Copy, PartialEq, Eq, Structural)]
pub enum EcLevel {
    L,
    M,
    Q,
    H,
}

/// The capacity of one QR code in bytes at each level.
pub open spec fn max_bytes_of(l: EcLevel) -> usize {
    match l {
        EcLevel::L => 2953,
        EcLevel::M => 2331,
        EcLevel::Q => 1663,
        EcLevel::H => 1272,
    }
}

/// What one fragment can carry besides its 13-character prefix.
pub open spec fn qr_cap_of(l: EcLevel) -> usize {
    (max_bytes_of(l) - 13) as usize
}

/// The name of each level.
pub open spec fn label_of(l: EcLevel) -> Seq<char> {
    match l {
        EcLevel::L => "L"@,
        EcLevel::M => "M"@,
        EcLevel::Q => "Q"@,
        EcLevel::H => "H"@,
    }
}

impl EcLevel {
    /// The level's letter.
    pub fn label(&self) -> (r: &'static str)
        ensures
            r@ == label_of(*self),
    {
        match self {
            EcLevel::L => "L",
            EcLevel::M => "M",
            EcLevel::Q => "Q",
            EcLevel::H => "H",
        }
    }

    /// The capacity of one QR code in bytes (byte mode, version 40).
    pub fn max_bytes(&self) -> (r: usize)
        ensures
            r == max_bytes_of(*self),
    {
        match self {
            EcLevel::L => 2953,
            EcLevel::M => 2331,
            EcLevel::Q => 1663,
            EcLevel::H => 1272,
        }
    }

    /// The length of the chunk that one fragment carries: `max_bytes - 13`.
    pub fn qr_cap(&self) -> (r: usize)
        ensures
            r == qr_cap_of(*self),
            r >= 1259,
    {
        self.max_bytes() - 13
    }

    /// All levels, from the lowest to the highest.
    pub fn all() -> (r: &'static [EcLevel])
        ensures
            r@ == seq![EcLevel::L, EcLevel::M, EcLevel::Q, EcLevel::H],
    {
        let r: &'static [EcLevel] = &[EcLevel::L, EcLevel::M, EcLevel::Q, EcLevel::H];
        r
    }
}

/// What to encode.
pub struct EncodeInput {
    pub data: Vec<u8>,
    pub filename: String,
    pub compress: bool,
    pub ec_level: EcLevel,
}

/// The fragment lines, one per QR code.
pub struct EncodeResult {
    pub fragments: Vec<String>,
}

/// The views of a sequence of strings.
pub open spec fn string_views(v: Seq<String>) -> Seq<Seq<char>> {
    v.map_values(|s: String| s@)
}

// ---------------------------------------------------------------------------
// The fragment format
// ---------------------------------------------------------------------------

/// The compression flag: `xv` when compressed, else empty.
pub open spec fn compress_flag(compress: bool) -> Seq<char> {
    if compress {
        seq!['x', 'v']
    } else {
        seq![]
    }
}

/// `<name>:<flag>:<base64>`, the text that the hash is taken of.
pub open spec fn hash_data_of(enc_name: Seq<char>, compress: bool, b64: Seq<char>) -> Seq<char> {
    enc_name + seq![':'] + compress_flag(compress) + seq![':'] + b64
}

/// `a / b` rounded up.
pub open spec fn div_ceil(a: nat, b: nat) -> nat {
    if a % b == 0 {
        a / b
    } else {
        a / b + 1
    }
}

/// The 8 hex digits of the first 4 bytes of the SHA-256 digest of the UTF-8
/// text `hd`.
pub open spec fn hash_of(hd: Seq<char>) -> Seq<char> {
    hex_lower(sha256_digest(encode_utf8(hd)).take(4))
}

/// The `i`-th chunk (from 0) of `full` cut into pieces of `cap` characters.
pub open spec fn chunk_of(full: Seq<char>, i: nat, cap: nat) -> Seq<char> {
    let s = i * cap;
    let e = if (i + 1) * cap < full.len() {
        (i + 1) * cap
    } else {
        full.len() as nat
    };
    full.subrange(s as int, e as int)
}

/// `<hash>:<index>:<chunk>` for the `i`-th fragment (from 0), the index
/// counted from 1 and padded to three digits.
pub open spec fn fragment_text(hash: Seq<char>, i: nat, chunk: Seq<char>) -> Seq<char> {
    hash + seq![':'] + pad3(i + 1) + seq![':'] + chunk
}

/// The fragment lines for the header parts: the percent-encoded file name
/// `enc`, the flag, the Base64 text `b64` and the 8-digit `hash`. The text
/// `<count>:<enc>:<flag>:<b64>` is cut into `count` chunks of the level's
/// capacity, `count = ceil((4 + len(<enc>:<flag>:<b64>)) / cap)`: the
/// fewest chunks that hold the whole text, the three-digit `<count>:`
/// header included.
pub open spec fn fragments_from_parts(
    enc: Seq<char>,
    compress: bool,
    b64: Seq<char>,
    hash: Seq<char>,
    level: EcLevel,
) -> Seq<Seq<char>> {
    let hd = hash_data_of(enc, compress, b64);
    let cap = qr_cap_of(level) as nat;
    let n = div_ceil(4 + hd.len(), cap);
    let full = pad3(n) + seq![':'] + hd;
    Seq::new(n, |i: int| fragment_text(hash, i as nat, chunk_of(full, i as nat, cap)))
}

/// The fragment lines for an already (un)compressed `payload`: its Base64
/// text under the percent-encoded file name, with the hash of
/// `<name>:<flag>:<base64>` (see `fragments_from_parts`).
pub open spec fn fragments_of(
    payload: Seq<u8>,
    filename: Seq<char>,
    compress: bool,
    level: EcLevel,
) -> Seq<Seq<char>> {
    let hd = hash_data_of(percent_encoded(filename), compress, b64_encoded(payload));
    fragments_from_parts(percent_encoded(filename), compress, b64_encoded(payload), hash_of(hd), level)
}

/// The Base64 encoder's length limit: the padded encoding of `len` bytes
/// must fit in `usize`.
pub open spec fn b64_fits(len: nat) -> bool {
    (len + 2) / 3 * 4 <= usize::MAX
}

/// `fragments` is what encoding `data` gives through `payload` (the data
/// itself, or when compressing, an xz stream that decompresses to it), with
/// the length and the round trip of that payload's Base64 text.
pub open spec fn encoded_with(
    data: Seq<u8>,
    filename: Seq<char>,
    compress: bool,
    level: EcLevel,
    payload: Seq<u8>,
    fragments: Seq<Seq<char>>,
) -> bool {
    &&& if compress {
        xz_decoded(payload) == Some(data)
    } else {
        payload == data
    }
    &&& b64_decoded(b64_encoded(payload)) == Some(payload)
    &&& b64_encoded(payload).len() == (payload.len() + 2) / 3 * 4
    &&& sha256_digest(
        encode_utf8(hash_data_of(percent_encoded(filename), compress, b64_encoded(payload))),
    ).len() == 32
    &&& fragments == fragments_of(payload, filename, compress, level)
}

// ---------------------------------------------------------------------------
// Encoding
// ---------------------------------------------------------------------------

/// Compresses `data` with `xz2::write::XzEncoder` at preset 6 (`write_all`,
/// then `finish`). Claims that it succeeds, and that xz decompression gives
/// `data` back. Writing into a `Vec` cannot fail; the encoder fails only on
/// liblzma's memory errors, which, like running out of memory, are left
/// aside. The compressed bytes themselves depend on the liblzma build and
/// are not stated; an error is handed back as its own text.
#[verifier::external_body]
fn compress_xz(data: &[u8]) -> (res: Result<Vec<u8>, String>)
    ensures
        res is Ok,
        res matches Ok(c) ==> xz_decoded(c@) == Some(data@),
{
    let mut encoder = XzEncoder::new(Vec::new(), 6);
    encoder.write_all(data).map_err(|e| e.to_string())?;
    encoder.finish().map_err(|e| e.to_string())
}

/// `i * cap < len` for every chunk index `i < ceil(len / cap)`.
pub proof fn lemma_chunk_start(len: nat, cap: nat, i: nat)
    requires
        cap > 0,
        i < div_ceil(len, cap),
    ensures
        i * cap < len,
{
    assert(i * cap < len) by (nonlinear_arith)
        requires
            cap > 0,
            i < (if len % cap == 0 {
                len / cap
            } else {
                len / cap + 1
            }),
    {
        assert(len == (len / cap) * cap + len % cap);
        if len % cap == 0 {
            assert(i <= len / cap - 1);
            assert(i * cap <= (len / cap - 1) * cap);
        } else {
            assert(i <= len / cap);
            assert(i * cap <= (len / cap) * cap);
        }
    }
}

/// Builds the fragment lines for a payload (see `fragments_of`).
fn fragments_for(payload: &Vec<u8>, filename: &String, compress: bool, level: EcLevel) -> (r: Vec<
    String,
>)
    requires
        b64_fits(payload@.len()),
    ensures
        string_views(r@) == fragments_of(payload@, filename@, compress, level),
        b64_decoded(b64_encoded(payload@)) == Some(payload@),
        b64_encoded(payload@).len() == (payload@.len() + 2) / 3 * 4,
        sha256_digest(
            encode_utf8(hash_data_of(percent_encoded(filename@), compress, b64_encoded(payload@))),
        ).len() == 32,
{
    let b64 = b64_encode(payload.as_slice());
    proof {
        lemma_b64_encoded_len(payload@);
    }
    let enc = percent_encode_name(filename.as_str());
    let mut hd: Vec<char> = str_to_chars(enc.as_str());
    hd.push(':');
    if compress {
        hd.push('x');
        hd.push('v');
    }
    hd.push(':');
    append_str(&mut hd, b64.as_str());
    assert(hd@ =~= hash_data_of(enc@, compress, b64@));

    // The hash: the first four digest bytes in lowercase hex.
    let hd_string = string_from_chars(&hd);
    let digest = sha256(hd_string.as_str().as_bytes());
    let mut first4: Vec<u8> = Vec::new();
    let mut k: usize = 0;
    while k < 4
        invariant
            k <= 4,
            digest@.len() == 32,
            first4@ =~= digest@.take(k as int),
        decreases 4 - k,
    {
        first4.push(digest[k]);
        k += 1;
    }
    let hash_string = hex_encode(first4.as_slice());

    assemble_fragments(enc.as_str(), compress, b64.as_str(), hash_string.as_str(), level)
}

/// The number of chunks of `cap` characters that `len + 4` characters
/// need, computed without adding first.
pub proof fn lemma_count_with_header(len: nat, cap: nat)
    requires
        cap > 4,
    ensures
        div_ceil(4 + len, cap) == len / cap + (if len % cap + 4 <= cap {
            1nat
        } else {
            2nat
        }),
{
    let q = (len / cap) as int;
    let r = (len % cap) as int;
    vstd::arithmetic::div_mod::lemma_fundamental_div_mod(len as int, cap as int);
    let m = (4 + len) as int;
    assert(len == q * cap + r);
    assert((q + 1) * cap == q * cap + cap) by (nonlinear_arith);
    if r + 4 < cap {
        vstd::arithmetic::div_mod::lemma_fundamental_div_mod_converse(m, cap as int, q, r + 4);
    } else if r + 4 == cap {
        vstd::arithmetic::div_mod::lemma_fundamental_div_mod_converse(m, cap as int, q + 1, 0);
    } else {
        vstd::arithmetic::div_mod::lemma_fundamental_div_mod_converse(m, cap as int, q + 1, r + 4 - cap);
    }
}

/// Cuts the header and payload into fragment lines (see
/// `fragments_from_parts`), given the percent-encoded file name, the
/// compression flag, the Base64 text and the hash.
pub fn assemble_fragments(enc: &str, compress: bool, b64: &str, hash: &str, level: EcLevel) -> (r: Vec<String>)
    ensures
        string_views(r@) == fragments_from_parts(enc@, compress, b64@, hash@, level),
{
    let mut hd: Vec<char> = str_to_chars(enc);
    hd.push(':');
    if compress {
        hd.push('x');
        hd.push('v');
    }
    hd.push(':');
    append_str(&mut hd, b64);
    assert(hd@ =~= hash_data_of(enc@, compress, b64@));
    let hash = str_to_chars(hash);

    let cap = level.qr_cap();
    let len = hd.len();
    assert(len / cap <= len / 2) by (nonlinear_arith)
        requires
            cap >= 2,
    ;
    let qr_num: usize = if len % cap + 4 <= cap {
        len / cap + 1
    } else {
        len / cap + 2
    };
    proof {
        lemma_count_with_header(len as nat, cap as nat);
        lemma_pad3(qr_num as nat);
    }
    let mut full = pad3_chars(qr_num);
    full.push(':');
    append_chars(&mut full, &hd);
    let ghost full_spec = pad3(qr_num as nat) + seq![':'] + hd@;
    assert(full@ =~= full_spec);

    let ghost expected = fragments_from_parts(enc@, compress, b64@, hash@, level);
    let flen = full.len();
    let mut out: Vec<String> = Vec::new();
    let mut i: usize = 0;
    while i < qr_num
        invariant
            i <= qr_num,
            cap == qr_cap_of(level),
            cap > 0,
            len == hd@.len(),
            qr_num == div_ceil((4 + len) as nat, cap as nat),
            full@ == full_spec,
            full_spec.len() >= 4 + len,
            flen == full@.len(),
            full_spec == pad3(qr_num as nat) + seq![':'] + hd@,
            hd@ == hash_data_of(enc@, compress, b64@),
            expected == fragments_from_parts(enc@, compress, b64@, hash@, level),
            expected.len() == qr_num,
            string_views(out@) =~= expected.take(i as int),
        decreases qr_num - i,
    {
        proof {
            lemma_chunk_start((4 + len) as nat, cap as nat, i as nat);
        }
        let start: usize = i * cap;
        let end: usize = if full.len() - start <= cap {
            full.len()
        } else {
            start + cap
        };
        let mut frag: Vec<char> = Vec::new();
        append_chars(&mut frag, &hash);
        frag.push(':');
        let idx = pad3_chars(i + 1);
        append_chars(&mut frag, &idx);
        frag.push(':');
        let mut j: usize = start;
        while j < end
            invariant
                start <= j <= end,
                end <= full@.len(),
                frag@ =~= hash@ + seq![':'] + pad3((i + 1) as nat) + seq![':'] + full@.subrange(
                    start as int,
                    j as int,
                ),
            decreases end - j,
        {
            frag.push(full[j]);
            j += 1;
        }
        let s = string_from_chars(&frag);
        proof {
            assert((i + 1) * cap == i * cap + cap) by (nonlinear_arith);
            assert(s@ == fragment_text(hash@, i as nat, chunk_of(full@, i as nat, cap as nat)));
            assert(expected[i as int] == s@);
        }
        let ghost old_out = out@;
        out.push(s);
        proof {
            assert(string_views(out@) =~= string_views(old_out).push(s@));
            assert(expected.take(i + 1) =~= expected.take(i as int).push(expected[i as int]));
        }
        i += 1;
    }
    assert(expected.take(qr_num as int) =~= expected);
    out
}

/// The message when the Base64 text of the payload would not fit in memory.
pub open spec fn msg_too_large() -> Seq<char> {
    "integer overflow when calculating buffer size"@
}

/// Encodes the input into fragment lines: compresses the data when asked,
/// then builds the fragments (see `fragments_of`). Without compression the
/// result is exact; with it, the fragments are those of some xz stream that
/// decompresses to the data. Fails, with `msg_too_large`, exactly when the
/// Base64 text of the payload would not fit in `usize`.
pub fn encode(input: EncodeInput) -> (res: Result<EncodeResult, String>)
    ensures
        !input.compress ==> (res is Ok <==> b64_fits(input.data@.len())),
        !input.compress && res is Ok ==> string_views(res.unwrap().fragments@) == fragments_of(
            input.data@,
            input.filename@,
            false,
            input.ec_level,
        ),
        input.compress && res is Err ==> exists|p: Seq<u8>|
            #[trigger] xz_decoded(p) == Some(input.data@) && !b64_fits(p.len()),
        res is Err ==> res->Err_0@ == msg_too_large(),
        res is Ok ==> exists|payload: Seq<u8>|
            #[trigger] encoded_with(
                input.data@,
                input.filename@,
                input.compress,
                input.ec_level,
                payload,
                string_views(res.unwrap().fragments@),
            ),
{
    let EncodeInput { data, filename, compress, ec_level } = input;
    let payload = if compress {
        match compress_xz(data.as_slice()) {
            Ok(c) => c,
            Err(e) => return Err(prefixed("xz圧縮エラー: ", e.as_str())),
        }
    } else {
        data
    };
    let n = payload.len();
    let chunks: usize = if n % 3 == 0 {
        n / 3
    } else {
        n / 3 + 1
    };
    if chunks > usize::MAX / 4 {
        assert(!b64_fits(payload@.len()));
        assert(compress ==> xz_decoded(payload@) == Some(input.data@));
        return Err("integer overflow when calculating buffer size".to_owned());
    }
    assert(b64_fits(payload@.len()));
    let fragments = fragments_for(&payload, &filename, compress, ec_level);
    let r = EncodeResult { fragments };
    assert(encoded_with(
        input.data@,
        input.filename@,
        input.compress,
        input.ec_level,
        payload@,
        string_views(r.fragments@),
    ));
    let res: Result<EncodeResult, String> = Ok(r);
    assert(res.unwrap() == r);
    res
}

} // verus!
