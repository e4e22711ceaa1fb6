use ipp_print::attribute::{AttributeValue, IppAttribute};
use ipp_print::message::{decode_message, encode_message, GroupTag, IppAttributeGroup, IppMessage};
use ipp_print::operation::{
    get_printer_attributes, interpret_response, print_job_request, SessionError,
};
use ipp_print::status::is_success;
use ipp_print::wire::DecodeError;

fn b(s: &str) -> Vec<u8> {
    s.as_bytes().to_vec()
}

fn at(name: &str, value: AttributeValue) -> IppAttribute {
    IppAttribute { name: b(name), value }
}

fn sample_message() -> IppMessage {
    let media_size = AttributeValue::Collection(vec![
        at("x-dimension", AttributeValue::Integer(10160)),
        at("y-dimension", AttributeValue::Integer(15240)),
    ]);
    let media_col = AttributeValue::Collection(vec![
        at("media-size", media_size),
        at("media-source", AttributeValue::Keyword(b("main"))),
        at(
            "media-type-supported",
            AttributeValue::Array(vec![
                AttributeValue::Keyword(b("plain")),
                AttributeValue::Keyword(b("photo")),
            ]),
        ),
    ]);
    IppMessage {
        version_major: 1,
        version_minor: 1,
        code: 0x0002,
        request_id: 0x01020304,
        groups: vec![
            IppAttributeGroup {
                tag: GroupTag::Operation,
                attributes: vec![
                    at("attributes-charset", AttributeValue::Charset(b("utf-8"))),
                    at("attributes-natural-language", AttributeValue::NaturalLanguage(b("en"))),
                    at("printer-uri", AttributeValue::Uri(b("ipp://printer.local/ipp/print"))),
                    at("requesting-user-name", AttributeValue::Name(b("alice"))),
                    at("job-name", AttributeValue::Text(b("photo.jpg"))),
                    at("document-format", AttributeValue::MimeMediaType(b("application/pdf"))),
                ],
            },
            IppAttributeGroup {
                tag: GroupTag::Job,
                attributes: vec![
                    at("media-col", media_col),
                    at("print-quality", AttributeValue::Enum(4)),
                    at("copies", AttributeValue::Integer(-2)),
                    at("page-ranges-supported", AttributeValue::Boolean(true)),
                    at("fidelity", AttributeValue::Boolean(false)),
                    at(
                        "sides",
                        AttributeValue::Array(vec![
                            AttributeValue::Keyword(b("one-sided")),
                            AttributeValue::Integer(7),
                            AttributeValue::Collection(vec![at(
                                "inner",
                                AttributeValue::OutOfBand(0x13),
                            )]),
                        ]),
                    ),
                    at("job-hold-until", AttributeValue::OutOfBand(0x12)),
                ],
            },
            IppAttributeGroup { tag: GroupTag::Printer, attributes: vec![] },
        ],
    }
}

#[test]
fn round_trip_reproduces_message() {
    let m = sample_message();
    let bytes = encode_message(&m);
    let (back, body_at) = decode_message(&bytes).unwrap();
    assert_eq!(body_at, bytes.len());
    assert_eq!(format!("{:?}", back), format!("{:?}", m));
}

#[test]
fn round_trip_keeps_trailing_body() {
    let m = sample_message();
    let mut bytes = encode_message(&m);
    let n = bytes.len();
    bytes.extend_from_slice(b"%PDF-1.4 body");
    let (back, body_at) = decode_message(&bytes).unwrap();
    assert_eq!(body_at, n);
    assert_eq!(&bytes[body_at..], b"%PDF-1.4 body");
    assert_eq!(format!("{:?}", back), format!("{:?}", m));
}

#[test]
fn header_and_first_attribute_bytes() {
    let m = get_printer_attributes(&b("ipp://p/ipp"), &b("bob"), 7);
    let bytes = encode_message(&m);
    assert_eq!(&bytes[0..8], &[1, 1, 0x00, 0x0B, 0, 0, 0, 7]);
    assert_eq!(bytes[8], 0x01);
    assert_eq!(bytes[9], 0x47);
    assert_eq!(&bytes[10..12], &[0, 18]);
    assert_eq!(&bytes[12..30], b"attributes-charset");
    assert_eq!(&bytes[30..32], &[0, 5]);
    assert_eq!(&bytes[32..37], b"utf-8");
    assert_eq!(*bytes.last().unwrap(), 0x03);
}

#[test]
fn negative_integer_is_twos_complement() {
    let m = IppMessage {
        version_major: 2,
        version_minor: 0,
        code: 0,
        request_id: 1,
        groups: vec![IppAttributeGroup {
            tag: GroupTag::Job,
            attributes: vec![at("n", AttributeValue::Integer(-1))],
        }],
    };
    let bytes = encode_message(&m);
    assert_eq!(&bytes[8..], &[0x02, 0x21, 0, 1, b'n', 0, 4, 0xFF, 0xFF, 0xFF, 0xFF, 0x03]);
}

#[test]
fn every_truncation_is_malformed() {
    let bytes = encode_message(&sample_message());
    for n in 0..bytes.len() {
        assert_eq!(decode_message(&bytes[..n]).unwrap_err(), DecodeError::MalformedMessage);
    }
}

#[test]
fn length_past_end_is_malformed() {
    let bytes = [1u8, 1, 0, 0, 0, 0, 0, 1, 0x01, 0x44, 0x00, 0x10, b'a', 0x03];
    assert_eq!(decode_message(&bytes).unwrap_err(), DecodeError::MalformedMessage);
}

#[test]
fn unknown_value_tag_is_malformed() {
    let bytes = [1u8, 1, 0, 0, 0, 0, 0, 1, 0x01, 0x7F, 0, 1, b'a', 0, 0, 0x03];
    assert_eq!(decode_message(&bytes).unwrap_err(), DecodeError::MalformedMessage);
}

#[test]
fn unknown_group_tag_is_malformed() {
    let bytes = [1u8, 1, 0, 0, 0, 0, 0, 1, 0x0F, 0x03];
    assert_eq!(decode_message(&bytes).unwrap_err(), DecodeError::MalformedMessage);
}

#[test]
fn short_header_is_malformed() {
    assert_eq!(decode_message(&[1u8, 1, 0]).unwrap_err(), DecodeError::MalformedMessage);
}

fn extras() -> Vec<IppAttribute> {
    vec![
        at("media", AttributeValue::Keyword(b("w288h432"))),
        at("print-color-mode", AttributeValue::Keyword(b("color"))),
        at("print-quality", AttributeValue::Enum(4)),
    ]
}

#[test]
fn print_job_is_idempotent() {
    let doc = b"%PDF-1.4\n...".to_vec();
    let a = print_job_request(&b("ipp://p/ipp"), &b("u"), &b("t"), &b("application/pdf"), extras(), 9, &doc);
    let c = print_job_request(&b("ipp://p/ipp"), &b("u"), &b("t"), &b("application/pdf"), extras(), 9, &doc);
    assert_eq!(a, c);
    assert!(a.ends_with(&doc));
    assert_eq!(&a[0..8], &[1, 1, 0, 2, 0, 0, 0, 9]);
}

#[test]
fn print_job_carries_caller_attributes_in_order() {
    let a = print_job_request(&b("ipp://p/ipp"), &b("u"), &b("t"), &b("application/pdf"), extras(), 9, &[]);
    let (m, _) = decode_message(&a).unwrap();
    let names: Vec<Vec<u8>> = m.groups[0].attributes.iter().map(|x| x.name.clone()).collect();
    assert_eq!(
        names,
        vec![
            b("attributes-charset"),
            b("attributes-natural-language"),
            b("printer-uri"),
            b("requesting-user-name"),
            b("job-name"),
            b("document-format"),
            b("media"),
            b("print-color-mode"),
            b("print-quality"),
        ]
    );
}

#[test]
fn success_range() {
    assert!(is_success(0x0000));
    assert!(is_success(0x0001));
    assert!(is_success(0x00FF));
    assert!(!is_success(0x0100));
    assert!(!is_success(0x0400));
    assert!(!is_success(0x0500));
}

#[test]
fn response_status_is_interpreted() {
    let mut ok = IppMessage { version_major: 1, version_minor: 1, code: 0x0000, request_id: 3, groups: vec![] };
    let bytes = encode_message(&ok);
    assert_eq!(interpret_response(&bytes).unwrap().code, 0);
    ok.code = 0x0406;
    let bytes = encode_message(&ok);
    let refused = interpret_response(&bytes).unwrap_err();
    assert_eq!(refused.error, SessionError::UnsupportedStatus(0x0406));
    assert_eq!(refused.response.unwrap().request_id, 3);
    let broken = interpret_response(&bytes[..5]).unwrap_err();
    assert_eq!(broken.error, SessionError::MalformedMessage);
    assert!(broken.response.is_none());
}

#[test]
fn well_formedness_check() {
    assert!(ipp_print::message::message_is_wf(&sample_message()));
    let one = IppMessage {
        version_major: 1,
        version_minor: 1,
        code: 0,
        request_id: 1,
        groups: vec![IppAttributeGroup {
            tag: GroupTag::Job,
            attributes: vec![at("a", AttributeValue::Array(vec![AttributeValue::Integer(1)]))],
        }],
    };
    assert!(!ipp_print::message::message_is_wf(&one));
    let oob = IppMessage {
        version_major: 1,
        version_minor: 1,
        code: 0,
        request_id: 1,
        groups: vec![IppAttributeGroup {
            tag: GroupTag::Job,
            attributes: vec![at("a", AttributeValue::OutOfBand(0x03))],
        }],
    };
    assert!(!ipp_print::message::message_is_wf(&oob));
    let unnamed = IppMessage {
        version_major: 1,
        version_minor: 1,
        code: 0,
        request_id: 1,
        groups: vec![IppAttributeGroup {
            tag: GroupTag::Job,
            attributes: vec![at("", AttributeValue::Integer(1))],
        }],
    };
    assert!(!ipp_print::message::message_is_wf(&unnamed));
    let nested = IppMessage {
        version_major: 1,
        version_minor: 1,
        code: 0,
        request_id: 1,
        groups: vec![IppAttributeGroup {
            tag: GroupTag::Job,
            attributes: vec![at(
                "c",
                AttributeValue::Collection(vec![at(
                    "m",
                    AttributeValue::Array(vec![
                        AttributeValue::Integer(1),
                        AttributeValue::Array(vec![AttributeValue::Integer(2), AttributeValue::Integer(3)]),
                    ]),
                )]),
            )],
        }],
    };
    assert!(!ipp_print::message::message_is_wf(&nested));
}

#[test]
fn other_octet_string_syntaxes_round_trip() {
    let m = IppMessage {
        version_major: 1,
        version_minor: 1,
        code: 0,
        request_id: 5,
        groups: vec![IppAttributeGroup {
            tag: GroupTag::Printer,
            attributes: vec![
                at("printer-current-time", AttributeValue::Other(0x31, vec![7, 234, 10, 17, 12, 0, 0, 0, b'+', 0, 0])),
                at("printer-resolution-default", AttributeValue::Other(0x32, vec![0, 0, 1, 44, 0, 0, 1, 44, 3])),
                at("copies-supported", AttributeValue::Other(0x33, vec![0, 0, 0, 1, 0, 0, 0, 99])),
                at("printer-info", AttributeValue::Other(0x35, vec![0, 2, b'e', b'n', 0, 1, b'x'])),
                at("uri-authentication-supported", AttributeValue::Other(0x46, b("none"))),
            ],
        }],
    };
    assert!(ipp_print::message::message_is_wf(&m));
    let bytes = encode_message(&m);
    let (back, _) = decode_message(&bytes).unwrap();
    assert_eq!(format!("{:?}", back), format!("{:?}", m));
}
