use ebml::decoder::{read_child_element, DecodeError, Decoder, ReadContentError};
use ebml::schema::{DefaultSchema, DefaultSchemaEntry, Schema, SchemaDict};
use ebml::vint::UnrepresentableLengthError;
use ebml::{
    BinaryElement, ChildElement, DateElement, EbmlId, Element, ElementDetail, ElementPosition,
    FloatElement, IntegerElement, MasterElement, MasterEndElement, MasterStartElement,
    StringElement, UnsignedIntegerElement, Utf8Element,
};

const EBML: i64 = 0x1A45DFA3;
const EBML_VERSION: i64 = 0x4286;
const EBML_READ_VERSION: i64 = 0x42F7;
const EBML_MAX_ID_LENGTH: i64 = 0x42F2;
const EBML_MAX_SIZE_LENGTH: i64 = 0x42F3;
const DOC_TYPE: i64 = 0x4282;
const DOC_TYPE_VERSION: i64 = 0x4287;
const DOC_TYPE_READ_VERSION: i64 = 0x4285;
const SEGMENT: i64 = 0x18538067;
const INFO: i64 = 0x1549A966;
const TITLE: i64 = 0x7BA9;
const DURATION: i64 = 0x4489;
const DATE_UTC: i64 = 0x4461;
const SEGMENT_UID: i64 = 0x73A4;
const TRACK_OFFSET: i64 = 0x537F;
const VOID: i64 = 0xEC;

fn entry(name: &str, type_code: char, level: i64) -> DefaultSchemaEntry {
    DefaultSchemaEntry {
        name: name.to_string(),
        type_code,
        level,
        description: String::new(),
        cppname: None,
        multiple: None,
        webm: None,
        minver: None,
        bytesize: None,
        range: None,
    }
}

fn schema() -> DefaultSchema {
    let mut schema = DefaultSchema::new();
    schema.insert(EbmlId(EBML), entry("EBML", 'm', 0));
    schema.insert(EbmlId(EBML_VERSION), entry("EBMLVersion", 'u', 1));
    schema.insert(EbmlId(EBML_READ_VERSION), entry("EBMLReadVersion", 'u', 1));
    schema.insert(EbmlId(EBML_MAX_ID_LENGTH), entry("EBMLMaxIDLength", 'u', 1));
    schema.insert(EbmlId(EBML_MAX_SIZE_LENGTH), entry("EBMLMaxSizeLength", 'u', 1));
    schema.insert(EbmlId(DOC_TYPE), entry("DocType", 's', 1));
    schema.insert(EbmlId(DOC_TYPE_VERSION), entry("DocTypeVersion", 'u', 1));
    schema.insert(EbmlId(DOC_TYPE_READ_VERSION), entry("DocTypeReadVersion", 'u', 1));
    schema.insert(EbmlId(SEGMENT), entry("Segment", 'm', 0));
    schema.insert(EbmlId(INFO), entry("Info", 'm', 1));
    schema.insert(EbmlId(TITLE), entry("Title", '8', 2));
    schema.insert(EbmlId(DURATION), entry("Duration", 'f', 2));
    schema.insert(EbmlId(DATE_UTC), entry("DateUTC", 'd', 2));
    schema.insert(EbmlId(SEGMENT_UID), entry("SegmentUID", 'b', 2));
    schema.insert(EbmlId(TRACK_OFFSET), entry("TrackOffset", 'i', 3));
    schema.insert(EbmlId(VOID), entry("Void", 'b', -1));
    schema
}

fn header() -> Vec<u8> {
    vec![
        0x1A, 0x45, 0xDF, 0xA3, 0x9F, 0x42, 0x86, 0x81, 0x01, 0x42, 0xF7, 0x81, 0x01, 0x42, 0xF2,
        0x81, 0x04, 0x42, 0xF3, 0x81, 0x08, 0x42, 0x82, 0x84, 0x77, 0x65, 0x62, 0x6D, 0x42, 0x87,
        0x81, 0x04, 0x42, 0x85, 0x81, 0x02,
    ]
}

fn events(details: Vec<ElementDetail>) -> Vec<Element> {
    details.into_iter().map(Element::from).collect()
}

fn start(id: i64, unknown_size: bool) -> Element {
    MasterStartElement { ebml_id: EbmlId(id), unknown_size }.into()
}

fn end(id: i64) -> Element {
    MasterEndElement { ebml_id: EbmlId(id) }.into()
}

fn unsigned(id: i64, value: u64) -> Element {
    UnsignedIntegerElement { ebml_id: EbmlId(id), value }.into()
}

fn header_events() -> Vec<Element> {
    vec![
        start(EBML, false),
        unsigned(EBML_VERSION, 1),
        unsigned(EBML_READ_VERSION, 1),
        unsigned(EBML_MAX_ID_LENGTH, 4),
        unsigned(EBML_MAX_SIZE_LENGTH, 8),
        StringElement { ebml_id: EbmlId(DOC_TYPE), value: b"webm".to_vec() }.into(),
        unsigned(DOC_TYPE_VERSION, 4),
        unsigned(DOC_TYPE_READ_VERSION, 2),
        end(EBML),
    ]
}

#[test]
fn dictionary_lookup() {
    let schema = schema();
    let found = schema.get(EbmlId(DOC_TYPE)).unwrap();
    assert_eq!(found.name(), "DocType");
    assert_eq!(found.type_code(), 's');
    assert_eq!(found.level(), 1);
    assert!(schema.get(EbmlId(0x80)).is_none());
}

#[test]
fn empty_master_element() {
    let schema = schema();
    let mut decoder = Decoder::new(&schema);
    let details = decoder.decode(vec![0x1A, 0x45, 0xDF, 0xA3, 0x80]).unwrap();
    let position = ElementPosition {
        ebml_id: EbmlId(EBML),
        level: 0,
        type_code: 'm',
        tag_start: 0,
        size_start: 4,
        content_start: 5,
        content_size: 0,
    };
    assert_eq!(
        details,
        vec![
            ElementDetail::MasterElement((
                MasterElement::MasterStartElement(MasterStartElement {
                    ebml_id: EbmlId(EBML),
                    unknown_size: false
                }),
                position
            )),
            ElementDetail::MasterElement((
                MasterElement::MasterEndElement(MasterEndElement { ebml_id: EbmlId(EBML) }),
                position
            )),
        ]
    );
    assert_eq!(decoder.position(), 5);
    assert_eq!(decoder.buffered(), 0);
}

#[test]
fn header_in_one_chunk() {
    let schema = schema();
    let mut decoder = Decoder::new(&schema);
    let details = decoder.decode(header()).unwrap();
    assert_eq!(
        details[5],
        ElementDetail::ChildElement((
            ChildElement::StringElement(StringElement {
                ebml_id: EbmlId(DOC_TYPE),
                value: b"webm".to_vec()
            }),
            ElementPosition {
                ebml_id: EbmlId(DOC_TYPE),
                level: 1,
                type_code: 's',
                tag_start: 21,
                size_start: 23,
                content_start: 24,
                content_size: 4,
            }
        ))
    );
    assert_eq!(events(details), header_events());
    assert_eq!(decoder.position(), 36);
}

#[test]
fn header_one_byte_at_a_time() {
    let schema = schema();
    let mut whole = Decoder::new(&schema);
    let expected = whole.decode(header()).unwrap();
    let mut decoder = Decoder::new(&schema);
    let mut details = vec![];
    for byte in header() {
        details.append(&mut decoder.decode(vec![byte]).unwrap());
    }
    assert_eq!(details, expected);
    assert_eq!(decoder.position(), whole.position());
}

#[test]
fn every_split_in_two_gives_the_same_events() {
    let schema = schema();
    let mut whole = Decoder::new(&schema);
    let expected = whole.decode(header()).unwrap();
    let bytes = header();
    for cut in 0..=bytes.len() {
        let mut decoder = Decoder::new(&schema);
        let mut details = decoder.decode(bytes[..cut].to_vec()).unwrap();
        details.append(&mut decoder.decode(bytes[cut..].to_vec()).unwrap());
        assert_eq!(details, expected);
    }
}

#[test]
fn empty_chunk_after_a_chunk_gives_nothing() {
    let schema = schema();
    let mut decoder = Decoder::new(&schema);
    decoder.decode(header()[..30].to_vec()).unwrap();
    let position = decoder.position();
    let buffered = decoder.buffered();
    assert_eq!(decoder.decode(vec![]), Ok(vec![]));
    assert_eq!(decoder.decode(vec![]), Ok(vec![]));
    assert_eq!(decoder.position(), position);
    assert_eq!(decoder.buffered(), buffered);
}

#[test]
fn incomplete_fields_wait_for_more() {
    let schema = schema();
    let mut decoder = Decoder::new(&schema);
    assert_eq!(decoder.decode(vec![0x1A, 0x45]), Ok(vec![]));
    assert_eq!(decoder.position(), 0);
    assert_eq!(decoder.buffered(), 2);
    assert_eq!(decoder.decode(vec![0xDF, 0xA3]), Ok(vec![]));
    assert_eq!(decoder.position(), 4);
    let started = decoder.decode(vec![0x84, 0x42, 0x86, 0x82, 0x01]).unwrap();
    assert_eq!(events(started), vec![start(EBML, false)]);
    assert_eq!(decoder.position(), 8);
    assert_eq!(decoder.buffered(), 1);
    let rest = decoder.decode(vec![0x02]).unwrap();
    assert_eq!(events(rest), vec![unsigned(EBML_VERSION, 0x0102), end(EBML)]);
}

#[test]
fn nested_master_elements_close_together() {
    let schema = schema();
    let mut decoder = Decoder::new(&schema);
    let bytes = vec![
        0x18, 0x53, 0x80, 0x67, 0x89, 0x15, 0x49, 0xA9, 0x66, 0x84, 0x7B, 0xA9, 0x81, 0x61,
        0xEC, 0x80,
    ];
    let details = decoder.decode(bytes).unwrap();
    assert_eq!(
        events(details),
        vec![
            start(SEGMENT, false),
            start(INFO, false),
            Utf8Element { ebml_id: EbmlId(TITLE), value: "a".to_string() }.into(),
            end(INFO),
            end(SEGMENT),
            BinaryElement { ebml_id: EbmlId(VOID), value: vec![] }.into(),
        ]
    );
}

#[test]
fn empty_master_element_closes_its_parent() {
    let schema = schema();
    let mut decoder = Decoder::new(&schema);
    let bytes = vec![0x18, 0x53, 0x80, 0x67, 0x85, 0x15, 0x49, 0xA9, 0x66, 0x80];
    let details = decoder.decode(bytes).unwrap();
    assert_eq!(
        events(details),
        vec![start(SEGMENT, false), start(INFO, false), end(INFO), end(SEGMENT)]
    );
}

#[test]
fn unknown_size_closes_after_the_first_child() {
    let schema = schema();
    let mut decoder = Decoder::new(&schema);
    let bytes = vec![
        0x18, 0x53, 0x80, 0x67, 0x01, 0xFF, 0xFF, 0xFF, 0xFF, 0xFF, 0xFF, 0xFF, 0x15, 0x49,
        0xA9, 0x66, 0xFF, 0xEC, 0x81, 0x00, 0xEC, 0x80,
    ];
    let details = decoder.decode(bytes).unwrap();
    assert_eq!(
        details[0],
        ElementDetail::MasterElement((
            MasterElement::MasterStartElement(MasterStartElement {
                ebml_id: EbmlId(SEGMENT),
                unknown_size: true
            }),
            ElementPosition {
                ebml_id: EbmlId(SEGMENT),
                level: 0,
                type_code: 'm',
                tag_start: 0,
                size_start: 4,
                content_start: 12,
                content_size: 0,
            }
        ))
    );
    assert_eq!(
        details[3],
        ElementDetail::MasterElement((
            MasterElement::MasterEndElement(MasterEndElement { ebml_id: EbmlId(INFO) }),
            ElementPosition {
                ebml_id: EbmlId(INFO),
                level: 1,
                type_code: 'm',
                tag_start: 12,
                size_start: 16,
                content_start: 17,
                content_size: 3,
            }
        ))
    );
    assert_eq!(
        details[4],
        ElementDetail::MasterElement((
            MasterElement::MasterEndElement(MasterEndElement { ebml_id: EbmlId(SEGMENT) }),
            ElementPosition {
                ebml_id: EbmlId(SEGMENT),
                level: 0,
                type_code: 'm',
                tag_start: 0,
                size_start: 4,
                content_start: 12,
                content_size: 8,
            }
        ))
    );
    assert_eq!(
        events(details),
        vec![
            start(SEGMENT, true),
            start(INFO, true),
            BinaryElement { ebml_id: EbmlId(VOID), value: vec![0] }.into(),
            end(INFO),
            end(SEGMENT),
            BinaryElement { ebml_id: EbmlId(VOID), value: vec![] }.into(),
        ]
    );
}

#[test]
fn leaves_of_every_type() {
    let schema = schema();
    let mut decoder = Decoder::new(&schema);
    let mut bytes = vec![0x53, 0x7F, 0x82, 0xFF, 0x38];
    bytes.extend_from_slice(&[0x44, 0x89, 0x84, 0x3F, 0xC0, 0x00, 0x00]);
    bytes.extend_from_slice(&[0x44, 0x89, 0x88]);
    bytes.extend_from_slice(&2.5f64.to_be_bytes());
    bytes.extend_from_slice(&[0x44, 0x61, 0x88]);
    bytes.extend_from_slice(&(-1_000_000_007i64).to_be_bytes());
    bytes.extend_from_slice(&[0x73, 0xA4, 0x83, 0x00, 0xFF, 0x10]);
    bytes.extend_from_slice(&[0x7B, 0xA9, 0x83, 0xE3, 0x81, 0x82]);
    bytes.extend_from_slice(&[0x42, 0x86, 0x88, 0xFF, 0xFF, 0xFF, 0xFF, 0xFF, 0xFF, 0xFF, 0xFF]);
    let details = decoder.decode(bytes).unwrap();
    assert_eq!(
        events(details),
        vec![
            IntegerElement { ebml_id: EbmlId(TRACK_OFFSET), value: -200 }.into(),
            FloatElement { ebml_id: EbmlId(DURATION), value: 1.5f64.to_bits() }.into(),
            FloatElement { ebml_id: EbmlId(DURATION), value: 2.5f64.to_bits() }.into(),
            DateElement { ebml_id: EbmlId(DATE_UTC), value: -1_000_000_007 }.into(),
            BinaryElement { ebml_id: EbmlId(SEGMENT_UID), value: vec![0x00, 0xFF, 0x10] }.into(),
            Utf8Element { ebml_id: EbmlId(TITLE), value: "\u{3042}".to_string() }.into(),
            unsigned(EBML_VERSION, u64::MAX),
        ]
    );
}

#[test]
fn unknown_identifier() {
    let schema = schema();
    let mut decoder = Decoder::new(&schema);
    assert_eq!(
        decoder.decode(vec![0x42, 0x99, 0x81, 0x00]),
        Err(DecodeError::UnknownEbmlId(EbmlId(0x4299)))
    );
    assert_eq!(decoder.decode(vec![]), Err(DecodeError::UnknownEbmlId(EbmlId(0x4299))));
    assert_eq!(decoder.position(), 0);
}

#[test]
fn first_byte_of_zero() {
    let schema = schema();
    let mut decoder = Decoder::new(&schema);
    assert_eq!(
        decoder.decode(vec![0x00, 0x01]),
        Err(DecodeError::ReadVint(UnrepresentableLengthError { length: 9 }))
    );
    let mut decoder = Decoder::new(&schema);
    assert_eq!(
        decoder.decode(vec![0xEC, 0x00]),
        Err(DecodeError::ReadVint(UnrepresentableLengthError { length: 9 }))
    );
}

#[test]
fn leaf_of_unknown_size() {
    let schema = schema();
    let mut decoder = Decoder::new(&schema);
    assert_eq!(
        decoder.decode(vec![0x42, 0x86, 0xFF, 0x01]),
        Err(DecodeError::UnknwonSizeNotAllowedInChildElement(ElementPosition {
            ebml_id: EbmlId(EBML_VERSION),
            level: 1,
            type_code: 'u',
            tag_start: 0,
            size_start: 2,
            content_start: 3,
            content_size: -1,
        }))
    );
}

#[test]
fn leaves_that_cannot_be_decoded() {
    let schema = schema();
    let mut decoder = Decoder::new(&schema);
    assert_eq!(
        decoder.decode(vec![0x44, 0x89, 0x83, 0x00, 0x00, 0x00]),
        Err(DecodeError::ReadContent(ReadContentError::Float))
    );
    let mut decoder = Decoder::new(&schema);
    assert_eq!(
        decoder.decode(vec![0x7B, 0xA9, 0x82, 0xC3, 0x28]),
        Err(DecodeError::ReadContent(ReadContentError::Utf8))
    );
    let mut decoder = Decoder::new(&schema);
    assert_eq!(
        decoder.decode(vec![0x42, 0x86, 0x89, 0, 0, 0, 0, 0, 0, 0, 0, 0]),
        Err(DecodeError::ReadContent(ReadContentError::UnsignedInteger))
    );
    let mut decoder = Decoder::new(&schema);
    assert_eq!(
        decoder.decode(vec![0x42, 0x86, 0x80]),
        Err(DecodeError::ReadContent(ReadContentError::UnsignedInteger))
    );
    let mut decoder = Decoder::new(&schema);
    assert_eq!(
        decoder.decode(vec![0x53, 0x7F, 0x80]),
        Err(DecodeError::ReadContent(ReadContentError::Integer))
    );
    let mut decoder = Decoder::new(&schema);
    assert_eq!(
        decoder.decode(vec![0x44, 0x61, 0x84, 0, 0, 0, 0]),
        Err(DecodeError::ReadContent(ReadContentError::Date))
    );
}

#[test]
fn content_under_each_type_code() {
    let id = EbmlId(0x81);
    assert_eq!(
        read_child_element(id, 'u', &[0x01, 0x00]),
        Ok(ChildElement::UnsignedIntegerElement(UnsignedIntegerElement {
            ebml_id: id,
            value: 256
        }))
    );
    assert_eq!(
        read_child_element(id, 'i', &[0x80]),
        Ok(ChildElement::IntegerElement(IntegerElement { ebml_id: id, value: -128 }))
    );
    assert_eq!(
        read_child_element(id, 'i', &[0x00, 0x80]),
        Ok(ChildElement::IntegerElement(IntegerElement { ebml_id: id, value: 128 }))
    );
    assert_eq!(
        read_child_element(id, 'i', &[0x80, 0, 0, 0, 0, 0, 0, 0]),
        Ok(ChildElement::IntegerElement(IntegerElement { ebml_id: id, value: i64::MIN }))
    );
    assert_eq!(
        read_child_element(id, 's', &[0x61, 0x00]),
        Ok(ChildElement::StringElement(StringElement { ebml_id: id, value: vec![0x61, 0x00] }))
    );
    assert_eq!(
        read_child_element(id, '8', &[]),
        Ok(ChildElement::Utf8Element(Utf8Element { ebml_id: id, value: String::new() }))
    );
    assert_eq!(
        read_child_element(id, 'd', &[0, 0, 0, 0, 0, 0, 0, 1, 9]),
        Ok(ChildElement::DateElement(DateElement { ebml_id: id, value: 1 }))
    );
    assert_eq!(read_child_element(id, 'm', &[]), Err(ReadContentError::Master));
    assert_eq!(read_child_element(id, 'x', &[1]), Err(ReadContentError::Unknown));
}

fn open_after(events: &[ElementDetail]) -> Option<Vec<EbmlId>> {
    let mut open = vec![];
    for detail in events {
        match detail {
            ElementDetail::MasterElement((MasterElement::MasterStartElement(o), _)) => {
                open.push(o.ebml_id)
            }
            ElementDetail::MasterElement((MasterElement::MasterEndElement(o), _)) => {
                if open.pop() != Some(o.ebml_id) {
                    return None;
                }
            }
            ElementDetail::ChildElement(_) => {}
        }
    }
    Some(open)
}

fn position_of(detail: &ElementDetail) -> ElementPosition {
    match detail {
        ElementDetail::MasterElement((_, position)) => *position,
        ElementDetail::ChildElement((_, position)) => *position,
    }
}

#[test]
fn ends_match_starts() {
    let schema = schema();
    let mut decoder = Decoder::new(&schema);
    let mut bytes = header();
    bytes.extend_from_slice(&[
        0x18, 0x53, 0x80, 0x67, 0x92, 0x15, 0x49, 0xA9, 0x66, 0x8A, 0x15, 0x49, 0xA9, 0x66, 0x80,
        0x15, 0x49, 0xA9, 0x66, 0x80, 0x15, 0x49, 0xA9, 0x66, 0x82, 0xEC, 0x80, 0xEC, 0x80,
    ]);
    let first = decoder.decode(bytes[..47].to_vec()).unwrap();
    assert_eq!(open_after(&first), Some(vec![EbmlId(SEGMENT), EbmlId(INFO)]));
    let mut all = first;
    all.append(&mut decoder.decode(bytes[47..].to_vec()).unwrap());
    assert_eq!(open_after(&all), Some(vec![]));
    assert!(all.iter().all(|detail| position_of(detail).content_size >= 0));
    let mut expected = header_events();
    expected.extend(vec![
        start(SEGMENT, false),
        start(INFO, false),
        start(INFO, false),
        end(INFO),
        start(INFO, false),
        end(INFO),
        end(INFO),
        start(INFO, false),
        BinaryElement { ebml_id: EbmlId(VOID), value: vec![] }.into(),
        end(INFO),
        end(SEGMENT),
        BinaryElement { ebml_id: EbmlId(VOID), value: vec![] }.into(),
    ]);
    assert_eq!(events(all), expected);
}

#[test]
fn no_published_size_is_negative() {
    let schema = schema();
    let mut decoder = Decoder::new(&schema);
    let bytes = vec![
        0x18, 0x53, 0x80, 0x67, 0xFF, 0x15, 0x49, 0xA9, 0x66, 0x40, 0x7F, 0xEC, 0x80,
    ];
    let details = decoder.decode(bytes).unwrap();
    assert_eq!(details.len(), 3);
    assert!(details.iter().all(|detail| position_of(detail).content_size >= 0));
    assert_eq!(position_of(&details[0]).content_size, 0);
    assert_eq!(position_of(&details[1]).content_size, 127);
    assert_eq!(open_after(&details), Some(vec![EbmlId(SEGMENT), EbmlId(INFO)]));
}
