//! Builds the object graph of a one-page document that shows a raster
//! image, under one of three placement strategies. Lengths are in
//! thousandths of a point (a point is 1/72 inch).
use vstd::prelude::*;
use crate::pdf::{
    entries_of, graph_complete, pdf_bytes, serialize, xref_at, PdfEntry, PdfError, PdfObject, PdfValue,
};
use crate::text::pow10;
use vstd::string::StringSliceAdditionalSpecFns;
use crate::text::{fixed_text, push_fixed};
use crate::wire::push_bytes;
use vstd::arithmetic::div_mod::{lemma_div_is_ordered, lemma_div_multiples_vanish};

verus! {

/// Thousandths of a point in an inch.
pub const MPT_PER_INCH: u64 = 72000;

/// A decoded image: `width * height` pixels of three bytes (red, green,
/// blue), row by row.
#[derive(Debug)]
pub struct RasterImage {
    pub width: u32,
    pub height: u32,
    pub pixels: Vec<u8>,
}

impl RasterImage {
    pub open spec fn wf(&self) -> bool {
        self.pixels@.len() == 3 * (self.width as int) * (self.height as int)
    }
}

/// Where the image goes on the page.
#[derive(Debug, Clone, Copy, PartialEq, Eq, Structural)]
pub enum Placement {
    /// A page of the given size; the image at its native size times the
    /// scale (in thousandths), moved by the translation.
    FixedFit { page_width: u64, page_height: u64, translate_x: u64, translate_y: u64, scale_x: u64, scale_y: u64 },
    /// A page exactly the image's native size.
    NativeSize,
    /// A page of the given size; the image scaled to fit, keeping its
    /// proportions, and centred.
    CenteredFit { page_width: u64, page_height: u64 },
}

/// The page size and where the image is drawn on it.
#[derive(Debug, Clone, Copy, PartialEq, Eq, Structural)]
pub struct Layout {
    pub media_width: u64,
    pub media_height: u64,
    pub translate_x: u64,
    pub translate_y: u64,
    pub draw_width: u64,
    pub draw_height: u64,
}

/// Native size of `px` pixels at `dpi` dots per inch, rounded down.
pub open spec fn native_spec(px: nat, dpi: nat) -> nat {
    px * MPT_PER_INCH as nat / dpi
}

/// Half of what the page leaves beside a length drawn on it.
pub open spec fn center_spec(page: nat, drawn: nat) -> nat {
    if drawn <= page {
        ((page - drawn) / 2) as nat
    } else {
        0
    }
}

pub open spec fn layout_spec(w: nat, h: nat, dpi: nat, p: Placement) -> Layout {
    let nw = native_spec(w, dpi);
    let nh = native_spec(h, dpi);
    // The fit ratio comes from the pixel counts: rounding falls only on the
    // final lengths.
    match p {
        Placement::FixedFit { page_width, page_height, translate_x, translate_y, scale_x, scale_y } => Layout {
            media_width: page_width,
            media_height: page_height,
            translate_x,
            translate_y,
            draw_width: (nw * scale_x / 1000) as u64,
            draw_height: (nh * scale_y / 1000) as u64,
        },
        Placement::NativeSize => Layout {
            media_width: nw as u64,
            media_height: nh as u64,
            translate_x: 0,
            translate_y: 0,
            draw_width: nw as u64,
            draw_height: nh as u64,
        },
        Placement::CenteredFit { page_width, page_height } => {
            let (dw, dh) = if w == 0 || h == 0 {
                (nw, nh)
            } else if (page_width as nat) * h <= (page_height as nat) * w {
                (page_width as nat, h * (page_width as nat) / w)
            } else {
                (w * (page_height as nat) / h, page_height as nat)
            };
            let (dw, dh) = (dw as u64, dh as u64);
            Layout {
                media_width: page_width,
                media_height: page_height,
                translate_x: center_spec(page_width as nat, dw as nat) as u64,
                translate_y: center_spec(page_height as nat, dh as nat) as u64,
                draw_width: dw,
                draw_height: dh,
            }
        },
    }
}

/// Lengths below this bound, in thousandths of a point, keep every product
/// the layout forms inside 64 bits (about 4 km).
pub const MAX_LENGTH: u64 = 0x1_0000_0000;

/// Largest scale of a fixed-fit placement, in thousandths: a thousandfold.
pub const MAX_SCALE: u64 = 1_000_000;

pub open spec fn placement_in_range(p: Placement) -> bool {
    match p {
        Placement::FixedFit { page_width, page_height, translate_x, translate_y, scale_x, scale_y } =>
            page_width < MAX_LENGTH && page_height < MAX_LENGTH && translate_x < MAX_LENGTH
            && translate_y < MAX_LENGTH && scale_x <= MAX_SCALE && scale_y <= MAX_SCALE,
        Placement::NativeSize => true,
        Placement::CenteredFit { page_width, page_height } => page_width < MAX_LENGTH && page_height < MAX_LENGTH,
    }
}

/// Every length of the layout fits a signed 64-bit number.
pub open spec fn layout_in_range(l: Layout) -> bool {
    l.media_width < 0x8000_0000_0000_0000 && l.media_height < 0x8000_0000_0000_0000
        && l.translate_x < 0x8000_0000_0000_0000 && l.translate_y < 0x8000_0000_0000_0000
        && l.draw_width < 0x8000_0000_0000_0000 && l.draw_height < 0x8000_0000_0000_0000
}

/// Native size of `px` pixels at `dpi` dots per inch, rounded down; within
/// a thousandth of a point of the exact size.
pub fn native_size(px: u32, dpi: u32) -> (r: u64)
    requires
        dpi > 0,
    ensures
        r == native_spec(px as nat, dpi as nat),
        r * dpi <= px * MPT_PER_INCH < (r + 1) * dpi,
{
    let a: u64 = (px as u64) * MPT_PER_INCH;
    let r = a / (dpi as u64);
    assert(r * dpi <= a < (r + 1) * dpi) by (nonlinear_arith)
        requires
            r == a / (dpi as u64),
            dpi > 0,
    ;
    r
}

/// Half of what the page leaves beside a length drawn on it: the offset
/// that centres the drawing.
pub fn center(page: u64, drawn: u64) -> (r: u64)
    ensures
        r == center_spec(page as nat, drawn as nat),
{
    if drawn <= page {
        (page - drawn) / 2
    } else {
        0
    }
}

/// Computes the layout of an image of `width` by `height` pixels at `dpi`.
/// For a native-size page the media box is within a thousandth of a point
/// of `width / dpi * 72` by `height / dpi * 72` points.
pub fn layout(width: u32, height: u32, dpi: u32, placement: Placement) -> (r: Layout)
    requires
        dpi > 0,
        placement_in_range(placement),
    ensures
        r == layout_spec(width as nat, height as nat, dpi as nat, placement),
        layout_in_range(r),
        placement is CenteredFit && width > 0 && height > 0 ==> r.draw_width <= r.media_width
            && r.draw_height <= r.media_height && (r.draw_width == r.media_width || r.draw_height
            == r.media_height),
        placement == Placement::NativeSize ==> r.media_width * dpi <= width * MPT_PER_INCH < (
        r.media_width + 1) * dpi && r.media_height * dpi <= height * MPT_PER_INCH < (r.media_height
            + 1) * dpi,
{
    let nw = native_size(width, dpi);
    let nh = native_size(height, dpi);
    assert(nw <= 0x1_0000_0000 * MPT_PER_INCH) by (nonlinear_arith)
        requires nw * dpi <= width * MPT_PER_INCH, dpi > 0, width < 0x1_0000_0000;
    assert(nh <= 0x1_0000_0000 * MPT_PER_INCH) by (nonlinear_arith)
        requires nh * dpi <= height * MPT_PER_INCH, dpi > 0, height < 0x1_0000_0000;
    match placement {
        Placement::FixedFit { page_width, page_height, translate_x, translate_y, scale_x, scale_y } => {
            assert(nw * scale_x <= 0x1_0000_0000 * MPT_PER_INCH * MAX_SCALE) by (nonlinear_arith)
                requires nw <= 0x1_0000_0000 * MPT_PER_INCH, scale_x <= MAX_SCALE;
            assert(nh * scale_y <= 0x1_0000_0000 * MPT_PER_INCH * MAX_SCALE) by (nonlinear_arith)
                requires nh <= 0x1_0000_0000 * MPT_PER_INCH, scale_y <= MAX_SCALE;
            Layout {
                media_width: page_width,
                media_height: page_height,
                translate_x,
                translate_y,
                draw_width: ((nw as u128) * (scale_x as u128) / 1000) as u64,
                draw_height: ((nh as u128) * (scale_y as u128) / 1000) as u64,
            }
        },
        Placement::NativeSize => Layout {
            media_width: nw,
            media_height: nh,
            translate_x: 0,
            translate_y: 0,
            draw_width: nw,
            draw_height: nh,
        },
        Placement::CenteredFit { page_width, page_height } => {
            let (w, h) = (width as u128, height as u128);
            let (pw, ph) = (page_width as u128, page_height as u128);
            assert(pw * h < 0x1_0000_0000 * 0x1_0000_0000) by (nonlinear_arith)
                requires pw < 0x1_0000_0000, h < 0x1_0000_0000;
            assert(ph * w < 0x1_0000_0000 * 0x1_0000_0000) by (nonlinear_arith)
                requires ph < 0x1_0000_0000, w < 0x1_0000_0000;
            let (dw, dh) = if width == 0 || height == 0 {
                (nw, nh)
            } else if pw * h <= ph * w {
                proof {
                    let (a, b, x, y) = (w as int, h as int, pw as int, ph as int);
                    assert(b * x == x * b && a * y == y * a) by (nonlinear_arith);
                    lemma_div_is_ordered(b * x, a * y, a);
                    lemma_div_multiples_vanish(y, a);
                }
                (page_width, (h * pw / w) as u64)
            } else {
                proof {
                    let (a, b, x, y) = (w as int, h as int, pw as int, ph as int);
                    assert(b * x == x * b && a * y == y * a) by (nonlinear_arith);
                    lemma_div_is_ordered(a * y, b * x, b);
                    lemma_div_multiples_vanish(x, b);
                }
                ((w * ph / h) as u64, page_height)
            };
            Layout {
                media_width: page_width,
                media_height: page_height,
                translate_x: center(page_width, dw),
                translate_y: center(page_height, dh),
                draw_width: dw,
                draw_height: dh,
            }
        },
    }
}

/// Whether the drawn image reaches past the page (only a fixed-fit
/// placement can do so; the caller decides whether to accept it).
pub fn overflows(l: &Layout) -> (r: bool)
    ensures
        r == (l.translate_x + l.draw_width > l.media_width || l.translate_y + l.draw_height
            > l.media_height),
{
    (l.translate_x as u128 + l.draw_width as u128 > l.media_width as u128) || (l.translate_y as u128
        + l.draw_height as u128 > l.media_height as u128)
}

/// The page's drawing: save state, map the unit square onto the drawn
/// rectangle, paint the image, restore state.
pub open spec fn content_spec(l: Layout) -> Seq<u8> {
    seq![113u8, 32] + fixed_text(l.draw_width as int) + seq![32u8, 48, 32, 48, 32] + fixed_text(
        l.draw_height as int,
    ) + seq![32u8] + fixed_text(l.translate_x as int) + seq![32u8] + fixed_text(
        l.translate_y as int,
    ) + seq![32u8, 99, 109, 32, 47, 73, 109, 49, 32, 68, 111, 32, 81]
}

/// The bytes of the page's content stream.
pub fn content_stream(l: &Layout) -> (r: Vec<u8>)
    requires
        l.draw_width < 0x8000_0000_0000_0000,
        l.draw_height < 0x8000_0000_0000_0000,
        l.translate_x < 0x8000_0000_0000_0000,
        l.translate_y < 0x8000_0000_0000_0000,
    ensures
        r@ == content_spec(*l),
{
    let mut r: Vec<u8> = vec![113u8, 32];
    push_fixed(&mut r, l.draw_width as i64);
    push_bytes(&mut r, vec![32u8, 48, 32, 48, 32].as_slice());
    push_fixed(&mut r, l.draw_height as i64);
    r.push(32u8);
    push_fixed(&mut r, l.translate_x as i64);
    r.push(32u8);
    push_fixed(&mut r, l.translate_y as i64);
    push_bytes(&mut r, vec![32u8, 99, 109, 32, 47, 73, 109, 49, 32, 68, 111, 32, 81].as_slice());
    assert(r@ =~= content_spec(*l));
    r
}

/// The bytes of a name written in the source.
fn name(s: &str) -> (r: Vec<u8>)
    ensures
        r@ == s.spec_bytes(),
{
    let mut r: Vec<u8> = Vec::new();
    push_bytes(&mut r, s.as_bytes());
    r
}

fn entry(key: Vec<u8>, value: PdfValue) -> (r: PdfEntry)
    ensures
        r.key == key,
        r.value == value,
{
    PdfEntry { key, value }
}

/// Entry `k` of object `i` has key `key`.
pub open spec fn key_is(os: Seq<PdfObject>, i: int, k: int, key: &str) -> bool {
    entries_of(os[i])[k].key@ == key.spec_bytes()
}

/// Entry `k` of object `i` is `/key /value`.
pub open spec fn name_is(os: Seq<PdfObject>, i: int, k: int, key: &str, value: &str) -> bool {
    key_is(os, i, k, key) && entries_of(os[i])[k].value is Name
        && entries_of(os[i])[k].value->Name_0@ == value.spec_bytes()
}

/// Entry `k` of object `i` is `/key v`.
pub open spec fn value_is(os: Seq<PdfObject>, i: int, k: int, key: &str, v: PdfValue) -> bool {
    key_is(os, i, k, key) && entries_of(os[i])[k].value == v
}

/// What the page graph holds, object by object and entry by entry:
/// 1. `<< /Type /Catalog /Pages 2 0 R >>`
/// 2. `<< /Type /Pages /Kids [3 0 R] /Count 1 >>`
/// 3. `<< /Type /Page /Parent 2 0 R /Resources 4 0 R /MediaBox [0 0 w h]
///    /Contents 6 0 R >>`
/// 4. `<< /XObject 5 0 R >>`
/// 5. `<< /Im1 7 0 R >>`
/// 6. a stream with no entries of its own holding the drawing;
/// 7. `<< /Type /XObject /Subtype /Image /Width w /Height h
///    /ColorSpace /DeviceRGB /BitsPerComponent 8 >>` and the raw pixels.
#[verifier::opaque]
pub open spec fn page_facts(os: Seq<PdfObject>, l: Layout, image: RasterImage) -> bool {
    &&& os.len() == 7
    &&& graph_complete(os)
    &&& os[0] is Dictionary && entries_of(os[0]).len() == 2
    &&& name_is(os, 0, 0, "Type", "Catalog")
    &&& value_is(os, 0, 1, "Pages", PdfValue::Reference(2))
    &&& os[1] is Dictionary && entries_of(os[1]).len() == 3
    &&& name_is(os, 1, 0, "Type", "Pages")
    &&& key_is(os, 1, 1, "Kids") && entries_of(os[1])[1].value is ReferenceArray
    &&& entries_of(os[1])[1].value->ReferenceArray_0@ == seq![3u32]
    &&& value_is(os, 1, 2, "Count", PdfValue::Integer(1))
    &&& os[2] is Dictionary && entries_of(os[2]).len() == 5
    &&& name_is(os, 2, 0, "Type", "Page")
    &&& value_is(os, 2, 1, "Parent", PdfValue::Reference(2))
    &&& value_is(os, 2, 2, "Resources", PdfValue::Reference(4))
    &&& key_is(os, 2, 3, "MediaBox") && entries_of(os[2])[3].value is FixedArray
    &&& entries_of(os[2])[3].value->FixedArray_0@ == seq![
        0i64,
        0i64,
        l.media_width as i64,
        l.media_height as i64,
    ]
    &&& value_is(os, 2, 4, "Contents", PdfValue::Reference(6))
    &&& os[3] is Dictionary && entries_of(os[3]).len() == 1
    &&& value_is(os, 3, 0, "XObject", PdfValue::Reference(5))
    &&& os[4] is Dictionary && entries_of(os[4]).len() == 1
    &&& value_is(os, 4, 0, "Im1", PdfValue::Reference(7))
    &&& os[5] is Stream && entries_of(os[5]).len() == 0
    &&& os[5]->Stream_1@ == content_spec(l)
    &&& os[6] is Stream && entries_of(os[6]).len() == 6
    &&& name_is(os, 6, 0, "Type", "XObject")
    &&& name_is(os, 6, 1, "Subtype", "Image")
    &&& value_is(os, 6, 2, "Width", PdfValue::Integer(image.width as i64))
    &&& value_is(os, 6, 3, "Height", PdfValue::Integer(image.height as i64))
    &&& name_is(os, 6, 4, "ColorSpace", "DeviceRGB")
    &&& value_is(os, 6, 5, "BitsPerComponent", PdfValue::Integer(8))
    &&& os[6]->Stream_1@ == image.pixels@
    &&& os[6]->Stream_1@.len() == 3 * (image.width as int) * (image.height as int)
}


/// Builds the seven objects of the page: catalog, page tree, page,
/// resources, image names, content stream, image.
pub fn build_page(image: &RasterImage, l: &Layout) -> (r: Vec<PdfObject>)
    requires
        l.draw_width < 0x8000_0000_0000_0000,
        l.draw_height < 0x8000_0000_0000_0000,
        l.translate_x < 0x8000_0000_0000_0000,
        l.translate_y < 0x8000_0000_0000_0000,
        l.media_width < 0x8000_0000_0000_0000,
        l.media_height < 0x8000_0000_0000_0000,
        image.wf(),
    ensures
        r@.len() == 7,
        graph_complete(r@),
        page_facts(r@, *l, *image),
{
    let catalog = PdfObject::Dictionary(vec![
        entry(name("Type"), PdfValue::Name(name("Catalog"))),
        entry(name("Pages"), PdfValue::Reference(2)),
    ]);
    let pages = PdfObject::Dictionary(vec![
        entry(name("Type"), PdfValue::Name(name("Pages"))),
        entry(name("Kids"), PdfValue::ReferenceArray(vec![3u32])),
        entry(name("Count"), PdfValue::Integer(1)),
    ]);
    let page = PdfObject::Dictionary(vec![
        entry(name("Type"), PdfValue::Name(name("Page"))),
        entry(name("Parent"), PdfValue::Reference(2)),
        entry(name("Resources"), PdfValue::Reference(4)),
        entry(name("MediaBox"), PdfValue::FixedArray(vec![0i64, 0i64, l.media_width as i64, l.media_height as i64])),
        entry(name("Contents"), PdfValue::Reference(6)),
    ]);
    let resources = PdfObject::Dictionary(vec![entry(name("XObject"), PdfValue::Reference(5))]);
    let names = PdfObject::Dictionary(vec![entry(name("Im1"), PdfValue::Reference(7))]);
    let content = PdfObject::Stream(Vec::new(), content_stream(l));
    let mut pixels: Vec<u8> = Vec::new();
    push_bytes(&mut pixels, image.pixels.as_slice());
    let img = PdfObject::Stream(
        vec![
            entry(name("Type"), PdfValue::Name(name("XObject"))),
            entry(name("Subtype"), PdfValue::Name(name("Image"))),
            entry(name("Width"), PdfValue::Integer(image.width as i64)),
            entry(name("Height"), PdfValue::Integer(image.height as i64)),
            entry(name("ColorSpace"), PdfValue::Name(name("DeviceRGB"))),
            entry(name("BitsPerComponent"), PdfValue::Integer(8)),
        ],
        pixels,
    );
    let r = vec![catalog, pages, page, resources, names, content, img];
    assert(r@[1]->Dictionary_0@[1].value->ReferenceArray_0@ == seq![3u32]);
    assert(graph_complete(r@));
    proof {
        reveal(page_facts);
    }
    r
}

/// The document of one page that shows `image` at `dpi` under `placement`.
/// Fails with `TooLarge` exactly when the document would be too large for
/// its cross-reference table.
pub fn image_to_pdf(image: &RasterImage, dpi: u32, placement: Placement) -> (r: Result<
    Vec<u8>,
    PdfError,
>)
    requires
        dpi > 0,
        placement_in_range(placement),
        image.wf(),
    ensures
        exists|os: Seq<PdfObject>|
            #![trigger pdf_bytes(os)]
            page_facts(
                os,
                layout_spec(image.width as nat, image.height as nat, dpi as nat, placement),
                *image,
            ) && (if xref_at(os) < pow10(10) {
                r is Ok && r->Ok_0@ == pdf_bytes(os)
            } else {
                r == Err::<Vec<u8>, PdfError>(PdfError::TooLarge)
            }),
{
    let l = layout(image.width, image.height, dpi, placement);
    let objs = build_page(image, &l);
    let r = serialize(&objs);
    proof {
        let os = objs@;
        assert(pdf_bytes(os) == pdf_bytes(os));
        assert(page_facts(os, layout_spec(image.width as nat, image.height as nat, dpi as nat, placement), *image));
        assert(if xref_at(os) < pow10(10) {
            r is Ok && r->Ok_0@ == pdf_bytes(os)
        } else {
            r == Err::<Vec<u8>, PdfError>(PdfError::TooLarge)
        });
    }
    r
}

} // verus!
