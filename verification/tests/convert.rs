use ebml::decoder::{DecodeError, ReadContentError};
use ebml::encoder::{EncodeError, EncodeTagError};
use ebml::vint::{UnrepresentableLengthError, UnrepresentableValueError};
use ebml::{
    BinaryElement, ChildElement, EbmlId, Element, ElementDetail, ElementPosition, MasterElement,
    MasterEndElement, MasterStartElement, UnsignedIntegerElement, Utf8Element,
};

fn position() -> ElementPosition {
    ElementPosition {
        ebml_id: EbmlId(0xEC),
        level: -1,
        type_code: 'b',
        tag_start: 3,
        size_start: 4,
        content_start: 5,
        content_size: 2,
    }
}

#[test]
fn identifiers_are_numbers() {
    let id: EbmlId = 21358.into();
    assert_eq!(id, EbmlId(21358));
    let number: i64 = id.into();
    assert_eq!(number, 21358);
}

#[test]
fn elements_from_their_parts() {
    let leaf: UnsignedIntegerElement = (EbmlId(0x4286), 7u64).into();
    assert_eq!(leaf, UnsignedIntegerElement { ebml_id: EbmlId(0x4286), value: 7 });
    let text: Utf8Element = (EbmlId(0x7BA9), "a".to_string()).into();
    assert_eq!(text, Utf8Element { ebml_id: EbmlId(0x7BA9), value: "a".to_string() });
    let child: ChildElement = leaf.into();
    assert_eq!(child, ChildElement::UnsignedIntegerElement(leaf));
    let element: Element = leaf.into();
    assert_eq!(element, Element::ChildElement(ChildElement::UnsignedIntegerElement(leaf)));
    let start = MasterStartElement { ebml_id: EbmlId(0x1A45DFA3), unknown_size: true };
    let master: MasterElement = start.into();
    assert_eq!(master, MasterElement::MasterStartElement(start));
    let element: Element = start.into();
    assert_eq!(element, Element::MasterElement(MasterElement::MasterStartElement(start)));
    let end = MasterEndElement { ebml_id: EbmlId(0x1A45DFA3) };
    let element: Element = end.into();
    assert_eq!(element, Element::MasterElement(MasterElement::MasterEndElement(end)));
}

#[test]
fn details_drop_their_position() {
    let binary = BinaryElement { ebml_id: EbmlId(0xEC), value: vec![1, 2] };
    let detail: ElementDetail = (ChildElement::BinaryElement(binary.clone()), position()).into();
    assert_eq!(
        detail,
        ElementDetail::ChildElement((ChildElement::BinaryElement(binary.clone()), position()))
    );
    assert_eq!(detail.clone(), detail);
    let element: Element = detail.into();
    assert_eq!(element, Element::ChildElement(ChildElement::BinaryElement(binary)));
    let end = MasterEndElement { ebml_id: EbmlId(0x18538067) };
    let detail: ElementDetail = (end, position()).into();
    assert_eq!(
        detail,
        ElementDetail::MasterElement((MasterElement::MasterEndElement(end), position()))
    );
    let element: Element = (end, position()).into();
    assert_eq!(element, Element::MasterElement(MasterElement::MasterEndElement(end)));
}

#[test]
fn errors_wrap_their_causes() {
    let length = UnrepresentableLengthError { length: 9 };
    assert_eq!(DecodeError::from(length), DecodeError::ReadVint(length));
    assert_eq!(
        DecodeError::from(ReadContentError::Float),
        DecodeError::ReadContent(ReadContentError::Float)
    );
    let value = UnrepresentableValueError { value: -3 };
    assert_eq!(EncodeTagError::from(value), EncodeTagError::UnrepresentableValue(value));
    assert_eq!(
        EncodeError::from(EncodeTagError::TryFromIntError),
        EncodeError::EncodeTag(EncodeTagError::TryFromIntError)
    );
}
