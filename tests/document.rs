use ipp_print::embed::{
    build_page, center, content_stream, image_to_pdf, layout, native_size, overflows, Layout,
    Placement, RasterImage,
};
use ipp_print::pdf::{serialize, PdfEntry, PdfError, PdfObject, PdfValue};
use ipp_print::text::{push_dec, push_fixed, push_pad};

fn image(w: u32, h: u32) -> RasterImage {
    let mut pixels = Vec::new();
    for i in 0..(w * h * 3) {
        pixels.push((i % 251) as u8);
    }
    RasterImage { width: w, height: h, pixels }
}

fn find(hay: &[u8], needle: &[u8]) -> Option<usize> {
    hay.windows(needle.len()).position(|w| w == needle)
}

fn number_at(bytes: &[u8], at: usize) -> usize {
    let mut n = 0usize;
    let mut i = at;
    while i < bytes.len() && bytes[i].is_ascii_digit() {
        n = n * 10 + (bytes[i] - b'0') as usize;
        i += 1;
    }
    n
}

#[test]
fn xref_offsets_point_at_objects() {
    let pdf = image_to_pdf(&image(3, 2), 300, Placement::NativeSize).unwrap();
    assert!(pdf.starts_with(b"%PDF-1.4\n"));
    assert!(pdf.ends_with(b"%%EOF\n"));
    let sx = find(&pdf, b"startxref\n").unwrap();
    let xref_at = number_at(&pdf, sx + 10);
    assert_eq!(&pdf[xref_at..xref_at + 5], b"xref\n");
    let head = b"xref\n0 8\n0000000000 65535 f\r\n";
    assert_eq!(&pdf[xref_at..xref_at + head.len()], head);
    for i in 0..7 {
        let e = xref_at + head.len() + 20 * i;
        assert_eq!(&pdf[e + 10..e + 20], b" 00000 n\r\n");
        let off = number_at(&pdf, e);
        let want = format!("{} 0 obj", i + 1);
        assert_eq!(&pdf[off..off + want.len()], want.as_bytes());
    }
    assert!(find(&pdf, b"trailer\n<< /Size 8 /Root 1 0 R >>").is_some());
}

#[test]
fn native_size_media_box() {
    let l = layout(600, 900, 300, Placement::NativeSize);
    assert_eq!((l.media_width, l.media_height), (144000, 216000));
    assert_eq!((l.draw_width, l.draw_height), (144000, 216000));
    let l = layout(100, 7, 300, Placement::NativeSize);
    assert_eq!(l.media_width, 24000);
    assert_eq!(l.media_height, 1680);
    let l = layout(1, 1, 7, Placement::NativeSize);
    assert_eq!(l.media_width, 10285);
    assert!(l.media_width as u64 * 7 <= 72000 && 72000 < (l.media_width as u64 + 1) * 7);
}

#[test]
fn native_size_rounds_down_within_a_thousandth() {
    assert_eq!(native_size(1, 3), 24000);
    assert_eq!(native_size(2, 7), 20571);
    assert_eq!(native_size(0, 300), 0);
}

#[test]
fn native_page_pdf_has_media_box() {
    let pdf = image_to_pdf(&image(600, 300), 300, Placement::NativeSize).unwrap();
    assert!(find(&pdf, b"/MediaBox [0.000 0.000 144.000 72.000 ]").is_some());
    assert!(find(&pdf, b"q 144.000 0 0 72.000 0.000 0.000 cm /Im1 Do Q").is_some());
    assert!(find(&pdf, b"/Width 600 /Height 300 /ColorSpace /DeviceRGB /BitsPerComponent 8 /Length 540000").is_some());
}

#[test]
fn centered_translate() {
    assert_eq!(center(210000, 100000), 55000);
    assert_eq!(center(297000, 150000), 73500);
    assert_eq!(center(100, 300), 0);
}

#[test]
fn centered_fit_scales_and_centres() {
    let l = layout(200, 300, 72, Placement::CenteredFit { page_width: 210000, page_height: 297000 });
    assert_eq!((l.draw_width, l.draw_height), (198000, 297000));
    assert_eq!((l.translate_x, l.translate_y), (6000, 0));
    let l = layout(400, 100, 72, Placement::CenteredFit { page_width: 210000, page_height: 297000 });
    assert_eq!((l.draw_width, l.draw_height), (210000, 52500));
    assert_eq!((l.translate_x, l.translate_y), (0, 122250));
    assert!(!overflows(&l));
}

#[test]
fn fixed_fit_keeps_page_and_may_overflow() {
    let p = Placement::FixedFit {
        page_width: 288000,
        page_height: 432000,
        translate_x: 0,
        translate_y: 0,
        scale_x: 1000,
        scale_y: 1000,
    };
    let l = layout(1200, 1800, 300, p);
    assert_eq!((l.media_width, l.media_height), (288000, 432000));
    assert_eq!((l.draw_width, l.draw_height), (288000, 432000));
    assert!(!overflows(&l));
    let l = layout(3000, 600, 300, p);
    assert_eq!(l.draw_width, 720000);
    assert!(overflows(&l));
    let half = Placement::FixedFit {
        page_width: 288000,
        page_height: 432000,
        translate_x: 10000,
        translate_y: 20000,
        scale_x: 500,
        scale_y: 250,
    };
    let l = layout(1200, 1800, 300, half);
    assert_eq!((l.draw_width, l.draw_height, l.translate_x, l.translate_y), (144000, 108000, 10000, 20000));
}

#[test]
fn content_stream_text() {
    let l = Layout {
        media_width: 288000,
        media_height: 432000,
        translate_x: 1500,
        translate_y: 0,
        draw_width: 288000,
        draw_height: 432001,
    };
    assert_eq!(content_stream(&l), b"q 288.000 0 0 432.001 1.500 0.000 cm /Im1 Do Q".to_vec());
}

#[test]
fn build_page_has_seven_objects() {
    let img = image(2, 2);
    let l = layout(2, 2, 72, Placement::NativeSize);
    let objs = build_page(&img, &l);
    assert_eq!(objs.len(), 7);
    match &objs[6] {
        PdfObject::Stream(_, data) => assert_eq!(data, &img.pixels),
        _ => panic!("image is a stream"),
    }
}

#[test]
fn dangling_reference_is_graph_incomplete() {
    let objs = vec![PdfObject::Dictionary(vec![PdfEntry {
        key: b"Pages".to_vec(),
        value: PdfValue::Reference(2),
    }])];
    assert_eq!(serialize(&objs).unwrap_err(), PdfError::GraphIncomplete);
    let objs = vec![PdfObject::Dictionary(vec![PdfEntry {
        key: b"Kids".to_vec(),
        value: PdfValue::ReferenceArray(vec![1, 0]),
    }])];
    assert_eq!(serialize(&objs).unwrap_err(), PdfError::GraphIncomplete);
    assert_eq!(serialize(&vec![]).unwrap_err(), PdfError::GraphIncomplete);
}

#[test]
fn serialize_small_graph_exactly() {
    let objs = vec![
        PdfObject::Dictionary(vec![PdfEntry { key: b"Type".to_vec(), value: PdfValue::Name(b"Catalog".to_vec()) }]),
        PdfObject::Stream(vec![], b"abc".to_vec()),
    ];
    let out = serialize(&objs).unwrap();
    let want = b"%PDF-1.4\n1 0 obj\n<< /Type /Catalog >>\nendobj\n2 0 obj\n<< /Length 3 >>\nstream\nabc\nendstream\nendobj\nxref\n0 3\n0000000000 65535 f\r\n0000000009 00000 n\r\n0000000045 00000 n\r\ntrailer\n<< /Size 3 /Root 1 0 R >>\nstartxref\n97\n%%EOF\n";
    assert_eq!(String::from_utf8(out).unwrap(), String::from_utf8(want.to_vec()).unwrap());
}

#[test]
fn decimal_text() {
    let mut v = Vec::new();
    push_dec(&mut v, 0);
    push_dec(&mut v, 1234567);
    assert_eq!(v, b"01234567".to_vec());
    let mut v = Vec::new();
    push_pad(&mut v, 42, 10);
    assert_eq!(v, b"0000000042".to_vec());
    let mut v = Vec::new();
    push_fixed(&mut v, -1500);
    push_fixed(&mut v, 7);
    assert_eq!(v, b"-1.5000.007".to_vec());
}

#[test]
fn centered_fit_ratio_from_pixels() {
    let l = layout(1, 3, 7, Placement::CenteredFit { page_width: 1_000_000, page_height: 1_000_000 });
    assert_eq!((l.draw_width, l.draw_height), (333_333, 1_000_000));
    assert_eq!((l.translate_x, l.translate_y), (333_333, 0));
}
