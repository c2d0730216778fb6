//! Drawing one fragment as a QR code: the module matrix comes from
//! `qrcodegen` (byte mode, versions 1 to 40, automatic mask, boosted error
//! correction); the picture is drawn here, with a four-module quiet zone and
//! `scale` pixels per module.
use vstd::prelude::*;

use crate::encode::EcLevel;
use crate::text::prefixed;
use vstd::utf8::encode_utf8;
use qrcodegen::{QrCode, QrCodeEcc, QrSegment, Version};

verus! {

/// The module matrix (rows from the top, `true` for dark) of the QR code
/// that `qrcodegen` builds for `data` in byte mode at least at `level`, or
/// `None` when the data does not fit in version 40.
pub uninterp spec fn qr_symbol(data: Seq<u8>, level: EcLevel) -> Option<Seq<Seq<bool>>>;

/// Calls `QrSegment::make_bytes` and `QrCode::encode_segments_advanced`
/// (versions 1 to 40, automatic mask, boosted level), then reads every
/// module with `QrCode::get_module`. Claims that it succeeds exactly when
/// the named symbol exists and returns it, and, as the crate documents, that
/// the symbol is square with a side between 21 and 177. An error is handed
/// back as the `DataTooLong` value's debug text, which is not stated.
#[verifier::external_body]
fn qr_modules(data: &[u8], level: EcLevel) -> (res: Result<Vec<Vec<bool>>, String>)
    ensures
        res is Ok <==> qr_symbol(data@, level) is Some,
        res matches Ok(m) ==> m.deep_view() == qr_symbol(data@, level).unwrap(),
        res matches Ok(m) ==> 21 <= m@.len() <= 177 && forall|i: int|
            0 <= i < m@.len() ==> #[trigger] m@[i]@.len() == m@.len(),
{
    let ecl = match level {
        EcLevel::L => QrCodeEcc::Low,
        EcLevel::M => QrCodeEcc::Medium,
        EcLevel::Q => QrCodeEcc::Quartile,
        EcLevel::H => QrCodeEcc::High,
    };
    let segs = [QrSegment::make_bytes(data)];
    let code = QrCode::encode_segments_advanced(&segs, ecl, Version::new(1), Version::new(40), None, true)
        .map_err(|e| format!("{:?}", e))?;
    let size = code.size();
    Ok((0..size).map(|y| (0..size).map(|x| code.get_module(x, y)).collect()).collect())
}

/// A grey-scale picture, one byte per pixel, rows from the top.
pub struct QrImage {
    pub width: u32,
    pub height: u32,
    pub pixels: Vec<u8>,
}

/// The width of the quiet zone around the symbol, in modules.
pub open spec fn quiet_zone() -> nat {
    4
}

/// The grey value of pixel `(px, py)`: black (0) inside a dark module,
/// white (255) elsewhere, the symbol shifted by the quiet zone.
pub open spec fn pixel_of(m: Seq<Seq<bool>>, scale: nat, px: nat, py: nat) -> u8 {
    let size = m.len();
    let mx = px / scale;
    let my = py / scale;
    if quiet_zone() <= mx < quiet_zone() + size && quiet_zone() <= my < quiet_zone() + size
        && m[my - quiet_zone()][mx - quiet_zone()] {
        0
    } else {
        255
    }
}

/// The side of the picture: the symbol and the quiet zone on both sides,
/// `scale` pixels per module.
pub open spec fn image_side(m: Seq<Seq<bool>>, scale: nat) -> nat {
    (m.len() + 2 * quiet_zone()) * scale
}

/// The pixels of the picture, row by row.
pub open spec fn pixels_of(m: Seq<Seq<bool>>, scale: nat) -> Seq<u8> {
    let w = image_side(m, scale);
    Seq::new(w * w, |k: int| pixel_of(m, scale, (k % w as int) as nat, (k / w as int) as nat))
}

/// Where each module lands: the module in row `r` and column `c` of `m`
/// covers the `scale` x `scale` square of pixels from column
/// `(c + 4) * scale` and row `(r + 4) * scale`, past the quiet zone; every
/// pixel of it, at `y * side + x` in the row-by-row picture, is black
/// exactly when the module is dark.
pub proof fn lemma_module_drawn(m: Seq<Seq<bool>>, scale: nat, r: nat, c: nat, x: nat, y: nat)
    requires
        square_symbol(m),
        r < m.len(),
        c < m.len(),
        (c + quiet_zone()) * scale <= x < (c + quiet_zone() + 1) * scale,
        (r + quiet_zone()) * scale <= y < (r + quiet_zone() + 1) * scale,
    ensures
        y * image_side(m, scale) + x < pixels_of(m, scale).len(),
        pixels_of(m, scale)[(y * image_side(m, scale) + x) as int] == if m[r as int][c as int] {
            0u8
        } else {
            255u8
        },
{
    let w = image_side(m, scale);
    let size = m.len();
    assert(scale > 0) by (nonlinear_arith)
        requires
            (c + 4) * scale <= x < (c + 4 + 1) * scale,
    ;
    assert(x < w && y < w) by (nonlinear_arith)
        requires
            x < (c + 4 + 1) * scale,
            y < (r + 4 + 1) * scale,
            c < size,
            r < size,
            w == (size + 2 * 4) * scale,
    ;
    assert(y * w + x < w * w) by (nonlinear_arith)
        requires
            x < w,
            y < w,
    ;
    let k = y * w + x;
    assert(k % w == x && k / w == y) by (nonlinear_arith)
        requires
            k == y * w + x,
            x < w,
    ;
    assert(x / scale == c + 4) by (nonlinear_arith)
        requires
            (c + 4) * scale <= x < (c + 4 + 1) * scale,
            scale > 0,
    ;
    assert(y / scale == r + 4) by (nonlinear_arith)
        requires
            (r + 4) * scale <= y < (r + 4 + 1) * scale,
            scale > 0,
    ;
    assert(pixels_of(m, scale)[k as int] == pixel_of(m, scale, x, y));
}

/// The quiet zone is white: a pixel of the picture left of, right of,
/// above or below the symbol is 255.
pub proof fn lemma_quiet_zone_white(m: Seq<Seq<bool>>, scale: nat, x: nat, y: nat)
    requires
        x < image_side(m, scale),
        y < image_side(m, scale),
        x < quiet_zone() * scale || (quiet_zone() + m.len()) * scale <= x || y < quiet_zone()
            * scale || (quiet_zone() + m.len()) * scale <= y,
    ensures
        y * image_side(m, scale) + x < pixels_of(m, scale).len(),
        pixels_of(m, scale)[(y * image_side(m, scale) + x) as int] == 255u8,
{
    let w = image_side(m, scale);
    let size = m.len();
    assert(y * w + x < w * w) by (nonlinear_arith)
        requires
            x < w,
            y < w,
    ;
    let k = y * w + x;
    assert(k % w == x && k / w == y) by (nonlinear_arith)
        requires
            k == y * w + x,
            x < w,
    ;
    assert(scale > 0) by (nonlinear_arith)
        requires
            x < w,
            w == (size + 2 * 4) * scale,
    ;
    assert(x < 4 * scale ==> x / scale < 4) by (nonlinear_arith)
        requires
            scale > 0,
    ;
    assert((4 + size) * scale <= x ==> x / scale >= 4 + size) by (nonlinear_arith)
        requires
            scale > 0,
    ;
    assert(y < 4 * scale ==> y / scale < 4) by (nonlinear_arith)
        requires
            scale > 0,
    ;
    assert((4 + size) * scale <= y ==> y / scale >= 4 + size) by (nonlinear_arith)
        requires
            scale > 0,
    ;
    assert(pixels_of(m, scale)[k as int] == pixel_of(m, scale, x, y));
}

/// `m` is a square module matrix with a side of at most 177.
pub open spec fn square_symbol(m: Seq<Seq<bool>>) -> bool {
    &&& m.len() <= 177
    &&& forall|i: int| 0 <= i < m.len() ==> #[trigger] m[i].len() == m.len()
}

/// Whether pictures at `scale` fit the sizes that `generate_qr_image`
/// needs: the largest side, 185 modules, in `u32`, and its square in
/// `usize`.
pub fn scale_fits(scale: u32) -> (r: bool)
    ensures
        r == (185 * scale <= u32::MAX && (185 * scale) * (185 * scale) <= usize::MAX),
{
    if scale > 23_216_039 {
        return false;
    }
    let side: u64 = 185 * (scale as u64);
    assert(side * side <= 0xffff_ffff_ffff_ffff) by (nonlinear_arith)
        requires
            side <= 185 * 23_216_039,
    ;
    let area: u64 = side * side;
    area <= usize::MAX as u64
}

/// What the message of a failed QR generation starts with; the generator's
/// own text follows it.
pub open spec fn qr_error_prefix() -> Seq<char> {
    "QRコード生成エラー: "@
}

/// Draws the QR code of `data` at `ec_level` (see `pixels_of`).
pub fn generate_qr_image(data: &str, ec_level: EcLevel, scale: u32) -> (res: Result<QrImage, String>)
    requires
        185 * scale <= u32::MAX,
        (185 * scale) * (185 * scale) <= usize::MAX,
    ensures
        res is Ok <==> qr_symbol(encode_utf8(data@), ec_level) is Some,
        res matches Ok(img) ==> {
            let m = qr_symbol(encode_utf8(data@), ec_level).unwrap();
            &&& img.width == image_side(m, scale as nat)
            &&& img.height == image_side(m, scale as nat)
            &&& img.pixels@ == pixels_of(m, scale as nat)
        },
        res matches Err(e) ==> qr_error_prefix().is_prefix_of(e@),
{
    match qr_modules(data.as_bytes(), ec_level) {
        Ok(m) => Ok(draw_modules(&m, scale)),
        Err(e) => {
            let msg = prefixed("QRコード生成エラー: ", e.as_str());
            assert(qr_error_prefix().is_prefix_of(msg@)) by {
                assert(msg@.subrange(0, qr_error_prefix().len() as int) =~= qr_error_prefix());
            }
            Err(msg)
        },
    }
}

/// Draws a module matrix: a four-module white quiet zone around it, `scale`
/// pixels per module, dark modules black (see `pixels_of`).
pub fn draw_modules(modules: &Vec<Vec<bool>>, scale: u32) -> (img: QrImage)
    requires
        square_symbol(modules.deep_view()),
        185 * scale <= u32::MAX,
        (185 * scale) * (185 * scale) <= usize::MAX,
    ensures
        img.width == image_side(modules.deep_view(), scale as nat),
        img.height == image_side(modules.deep_view(), scale as nat),
        img.pixels@ == pixels_of(modules.deep_view(), scale as nat),
{
    let ghost m = modules.deep_view();
    let size = modules.len();
    assert(m.len() == size);
    assert forall|i: int| 0 <= i < modules@.len() implies #[trigger] modules@[i]@.len() == size by {
        assert(m[i] == modules@[i].deep_view());
    }
    assert((size + 8) * scale <= 185 * scale) by (nonlinear_arith)
        requires
            size <= 177,
    ;
    let w: usize = (size + 8) * (scale as usize);
    assert(w * w <= (185 * scale) * (185 * scale)) by (nonlinear_arith)
        requires
            w <= 185 * scale,
    ;
    let total: usize = w * w;
    let mut pixels: Vec<u8> = Vec::new();
    let mut k: usize = 0;
    while k < total
        invariant
            k <= total,
            total == w * w,
            w == image_side(m, scale as nat),
            w > 0 ==> scale > 0,
            m == modules.deep_view(),
            size == m.len(),
            size == modules@.len(),
            size <= 177,
            forall|i: int| 0 <= i < modules@.len() ==> #[trigger] modules@[i]@.len() == size,
            pixels@ =~= Seq::new(
                k as nat,
                |j: int| pixel_of(m, scale as nat, (j % w as int) as nat, (j / w as int) as nat),
            ),
        decreases total - k,
    {
        assert(w > 0) by (nonlinear_arith)
            requires
                k < w * w,
        ;
        let px = k % w;
        let py = k / w;
        let mx = px / (scale as usize);
        let my = py / (scale as usize);
        let dark = if 4 <= mx && mx < 4 + size && 4 <= my && my < 4 + size {
            modules[my - 4][mx - 4]
        } else {
            false
        };
        let v: u8 = if dark {
            0
        } else {
            255
        };
        proof {
            if 4 <= mx && mx < 4 + size && 4 <= my && my < 4 + size {
                assert(m[my - 4] == modules@[my - 4]@);
            }
            assert(v == pixel_of(m, scale as nat, px as nat, py as nat));
        }
        pixels.push(v);
        k += 1;
    }
    QrImage { width: w as u32, height: w as u32, pixels }
}

} // verus!
