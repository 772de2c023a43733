//! Conversions between the element types and between the error types,
//! each a plain wrapping or the dropping of a position record, and the
//! copies of the element types.

use crate::decoder::{DecodeError, ReadContentError};
use crate::ebml::{
    BinaryElement, ChildElement, DateElement, EbmlId, Element, ElementDetail, ElementPosition,
    FloatElement, IntegerElement, MasterElement, MasterEndElement, MasterStartElement,
    StringElement, UnsignedIntegerElement, Utf8Element,
};
use crate::encoder::{EncodeError, EncodeTagError};
use crate::vint::{UnrepresentableLengthError, UnrepresentableValueError};
use vstd::prelude::*;
use vstd::std_specs::convert::FromSpecImpl;

verus! {

impl FromSpecImpl<ElementDetail> for Element {
    open spec fn obeys_from_spec() -> bool {
        true
    }

    open spec fn from_spec(o: ElementDetail) -> Element {
        match o {
            ElementDetail::MasterElement((o, _)) => Element::MasterElement(o),
            ElementDetail::ChildElement((o, _)) => Element::ChildElement(o),
        }
    }
}

impl From<ElementDetail> for Element {
    /// The event without its position record.
    fn from(o: ElementDetail) -> (r: Element)
        ensures
            r@ == o@.0,
    {
        match o {
            ElementDetail::MasterElement((o, _)) => Element::MasterElement(o),
            ElementDetail::ChildElement((o, _)) => Element::ChildElement(o),
        }
    }
}

impl Clone for StringElement {
    fn clone(&self) -> (r: Self)
        ensures
            r.ebml_id == self.ebml_id,
            r.value@ == self.value@,
    {
        StringElement { ebml_id: self.ebml_id, value: self.value.clone() }
    }
}

impl Clone for Utf8Element {
    fn clone(&self) -> (r: Self)
        ensures
            r.ebml_id == self.ebml_id,
            r.value@ == self.value@,
    {
        Utf8Element { ebml_id: self.ebml_id, value: self.value.clone() }
    }
}

impl Clone for BinaryElement {
    fn clone(&self) -> (r: Self)
        ensures
            r.ebml_id == self.ebml_id,
            r.value@ == self.value@,
    {
        BinaryElement { ebml_id: self.ebml_id, value: self.value.clone() }
    }
}

impl Clone for ChildElement {
    fn clone(&self) -> (r: Self)
        ensures
            r@ == self@,
    {
        match self {
            ChildElement::UnsignedIntegerElement(o) => ChildElement::UnsignedIntegerElement(*o),
            ChildElement::IntegerElement(o) => ChildElement::IntegerElement(*o),
            ChildElement::FloatElement(o) => ChildElement::FloatElement(*o),
            ChildElement::StringElement(o) => ChildElement::StringElement(o.clone()),
            ChildElement::Utf8Element(o) => ChildElement::Utf8Element(o.clone()),
            ChildElement::BinaryElement(o) => ChildElement::BinaryElement(o.clone()),
            ChildElement::DateElement(o) => ChildElement::DateElement(*o),
        }
    }
}

impl Clone for Element {
    fn clone(&self) -> (r: Self)
        ensures
            r@ == self@,
    {
        match self {
            Element::MasterElement(o) => Element::MasterElement(*o),
            Element::ChildElement(o) => Element::ChildElement(o.clone()),
        }
    }
}

impl Clone for ElementDetail {
    fn clone(&self) -> (r: Self)
        ensures
            r@ == self@,
    {
        match self {
            ElementDetail::MasterElement((o, position)) => ElementDetail::MasterElement(
                (*o, *position),
            ),
            ElementDetail::ChildElement((o, position)) => ElementDetail::ChildElement(
                (o.clone(), *position),
            ),
        }
    }
}

impl FromSpecImpl<i64> for EbmlId {
    open spec fn obeys_from_spec() -> bool {
        true
    }

    open spec fn from_spec(value: i64) -> EbmlId {
        EbmlId(value)
    }
}

impl From<i64> for EbmlId {
    fn from(value: i64) -> (r: EbmlId) {
        EbmlId(value)
    }
}

impl FromSpecImpl<EbmlId> for i64 {
    open spec fn obeys_from_spec() -> bool {
        true
    }

    open spec fn from_spec(ebml_id: EbmlId) -> i64 {
        ebml_id.0
    }
}

impl From<EbmlId> for i64 {
    fn from(ebml_id: EbmlId) -> (r: i64) {
        ebml_id.0
    }
}

impl FromSpecImpl<MasterElement> for Element {
    open spec fn obeys_from_spec() -> bool {
        true
    }

    open spec fn from_spec(o: MasterElement) -> Element {
        Element::MasterElement(o)
    }
}

impl From<MasterElement> for Element {
    fn from(o: MasterElement) -> (r: Element) {
        Element::MasterElement(o)
    }
}

impl FromSpecImpl<ChildElement> for Element {
    open spec fn obeys_from_spec() -> bool {
        true
    }

    open spec fn from_spec(o: ChildElement) -> Element {
        Element::ChildElement(o)
    }
}

impl From<ChildElement> for Element {
    fn from(o: ChildElement) -> (r: Element) {
        Element::ChildElement(o)
    }
}

impl FromSpecImpl<MasterStartElement> for MasterElement {
    open spec fn obeys_from_spec() -> bool {
        true
    }

    open spec fn from_spec(o: MasterStartElement) -> MasterElement {
        MasterElement::MasterStartElement(o)
    }
}

impl From<MasterStartElement> for MasterElement {
    fn from(o: MasterStartElement) -> (r: MasterElement) {
        MasterElement::MasterStartElement(o)
    }
}

impl FromSpecImpl<MasterStartElement> for Element {
    open spec fn obeys_from_spec() -> bool {
        true
    }

    open spec fn from_spec(o: MasterStartElement) -> Element {
        Element::MasterElement(MasterElement::MasterStartElement(o))
    }
}

impl From<MasterStartElement> for Element {
    fn from(o: MasterStartElement) -> (r: Element) {
        Element::MasterElement(MasterElement::MasterStartElement(o))
    }
}

impl FromSpecImpl<(MasterStartElement, ElementPosition)> for ElementDetail {
    open spec fn obeys_from_spec() -> bool {
        true
    }

    open spec fn from_spec(o: (MasterStartElement, ElementPosition)) -> ElementDetail {
        ElementDetail::MasterElement((MasterElement::MasterStartElement(o.0), o.1))
    }
}

impl From<(MasterStartElement, ElementPosition)> for ElementDetail {
    fn from(o: (MasterStartElement, ElementPosition)) -> (r: ElementDetail) {
        ElementDetail::MasterElement((MasterElement::MasterStartElement(o.0), o.1))
    }
}

impl FromSpecImpl<(MasterStartElement, ElementPosition)> for Element {
    open spec fn obeys_from_spec() -> bool {
        true
    }

    open spec fn from_spec(o: (MasterStartElement, ElementPosition)) -> Element {
        Element::MasterElement(MasterElement::MasterStartElement(o.0))
    }
}

impl From<(MasterStartElement, ElementPosition)> for Element {
    fn from(o: (MasterStartElement, ElementPosition)) -> (r: Element) {
        Element::MasterElement(MasterElement::MasterStartElement(o.0))
    }
}

impl FromSpecImpl<MasterEndElement> for MasterElement {
    open spec fn obeys_from_spec() -> bool {
        true
    }

    open spec fn from_spec(o: MasterEndElement) -> MasterElement {
        MasterElement::MasterEndElement(o)
    }
}

impl From<MasterEndElement> for MasterElement {
    fn from(o: MasterEndElement) -> (r: MasterElement) {
        MasterElement::MasterEndElement(o)
    }
}

impl FromSpecImpl<MasterEndElement> for Element {
    open spec fn obeys_from_spec() -> bool {
        true
    }

    open spec fn from_spec(o: MasterEndElement) -> Element {
        Element::MasterElement(MasterElement::MasterEndElement(o))
    }
}

impl From<MasterEndElement> for Element {
    fn from(o: MasterEndElement) -> (r: Element) {
        Element::MasterElement(MasterElement::MasterEndElement(o))
    }
}

impl FromSpecImpl<(MasterEndElement, ElementPosition)> for ElementDetail {
    open spec fn obeys_from_spec() -> bool {
        true
    }

    open spec fn from_spec(o: (MasterEndElement, ElementPosition)) -> ElementDetail {
        ElementDetail::MasterElement((MasterElement::MasterEndElement(o.0), o.1))
    }
}

impl From<(MasterEndElement, ElementPosition)> for ElementDetail {
    fn from(o: (MasterEndElement, ElementPosition)) -> (r: ElementDetail) {
        ElementDetail::MasterElement((MasterElement::MasterEndElement(o.0), o.1))
    }
}

impl FromSpecImpl<(MasterEndElement, ElementPosition)> for Element {
    open spec fn obeys_from_spec() -> bool {
        true
    }

    open spec fn from_spec(o: (MasterEndElement, ElementPosition)) -> Element {
        Element::MasterElement(MasterElement::MasterEndElement(o.0))
    }
}

impl From<(MasterEndElement, ElementPosition)> for Element {
    fn from(o: (MasterEndElement, ElementPosition)) -> (r: Element) {
        Element::MasterElement(MasterElement::MasterEndElement(o.0))
    }
}

impl FromSpecImpl<(MasterElement, ElementPosition)> for ElementDetail {
    open spec fn obeys_from_spec() -> bool {
        true
    }

    open spec fn from_spec(o: (MasterElement, ElementPosition)) -> ElementDetail {
        ElementDetail::MasterElement(o)
    }
}

impl From<(MasterElement, ElementPosition)> for ElementDetail {
    fn from(o: (MasterElement, ElementPosition)) -> (r: ElementDetail) {
        ElementDetail::MasterElement(o)
    }
}

impl FromSpecImpl<(MasterElement, ElementPosition)> for Element {
    open spec fn obeys_from_spec() -> bool {
        true
    }

    open spec fn from_spec(o: (MasterElement, ElementPosition)) -> Element {
        Element::MasterElement(o.0)
    }
}

impl From<(MasterElement, ElementPosition)> for Element {
    fn from(o: (MasterElement, ElementPosition)) -> (r: Element) {
        Element::MasterElement(o.0)
    }
}

impl FromSpecImpl<(ChildElement, ElementPosition)> for ElementDetail {
    open spec fn obeys_from_spec() -> bool {
        true
    }

    open spec fn from_spec(o: (ChildElement, ElementPosition)) -> ElementDetail {
        ElementDetail::ChildElement(o)
    }
}

impl From<(ChildElement, ElementPosition)> for ElementDetail {
    fn from(o: (ChildElement, ElementPosition)) -> (r: ElementDetail) {
        ElementDetail::ChildElement(o)
    }
}

impl FromSpecImpl<(ChildElement, ElementPosition)> for Element {
    open spec fn obeys_from_spec() -> bool {
        true
    }

    open spec fn from_spec(o: (ChildElement, ElementPosition)) -> Element {
        Element::ChildElement(o.0)
    }
}

impl From<(ChildElement, ElementPosition)> for Element {
    fn from(o: (ChildElement, ElementPosition)) -> (r: Element) {
        Element::ChildElement(o.0)
    }
}

impl FromSpecImpl<UnsignedIntegerElement> for ChildElement {
    open spec fn obeys_from_spec() -> bool {
        true
    }

    open spec fn from_spec(o: UnsignedIntegerElement) -> ChildElement {
        ChildElement::UnsignedIntegerElement(o)
    }
}

impl From<UnsignedIntegerElement> for ChildElement {
    fn from(o: UnsignedIntegerElement) -> (r: ChildElement) {
        ChildElement::UnsignedIntegerElement(o)
    }
}

impl FromSpecImpl<UnsignedIntegerElement> for Element {
    open spec fn obeys_from_spec() -> bool {
        true
    }

    open spec fn from_spec(o: UnsignedIntegerElement) -> Element {
        Element::ChildElement(ChildElement::UnsignedIntegerElement(o))
    }
}

impl From<UnsignedIntegerElement> for Element {
    fn from(o: UnsignedIntegerElement) -> (r: Element) {
        Element::ChildElement(ChildElement::UnsignedIntegerElement(o))
    }
}

impl FromSpecImpl<(EbmlId, u64)> for UnsignedIntegerElement {
    open spec fn obeys_from_spec() -> bool {
        true
    }

    open spec fn from_spec(o: (EbmlId, u64)) -> UnsignedIntegerElement {
        UnsignedIntegerElement { ebml_id: o.0, value: o.1 }
    }
}

impl From<(EbmlId, u64)> for UnsignedIntegerElement {
    fn from(o: (EbmlId, u64)) -> (r: UnsignedIntegerElement) {
        UnsignedIntegerElement { ebml_id: o.0, value: o.1 }
    }
}

impl FromSpecImpl<IntegerElement> for ChildElement {
    open spec fn obeys_from_spec() -> bool {
        true
    }

    open spec fn from_spec(o: IntegerElement) -> ChildElement {
        ChildElement::IntegerElement(o)
    }
}

impl From<IntegerElement> for ChildElement {
    fn from(o: IntegerElement) -> (r: ChildElement) {
        ChildElement::IntegerElement(o)
    }
}

impl FromSpecImpl<IntegerElement> for Element {
    open spec fn obeys_from_spec() -> bool {
        true
    }

    open spec fn from_spec(o: IntegerElement) -> Element {
        Element::ChildElement(ChildElement::IntegerElement(o))
    }
}

impl From<IntegerElement> for Element {
    fn from(o: IntegerElement) -> (r: Element) {
        Element::ChildElement(ChildElement::IntegerElement(o))
    }
}

impl FromSpecImpl<(EbmlId, i64)> for IntegerElement {
    open spec fn obeys_from_spec() -> bool {
        true
    }

    open spec fn from_spec(o: (EbmlId, i64)) -> IntegerElement {
        IntegerElement { ebml_id: o.0, value: o.1 }
    }
}

impl From<(EbmlId, i64)> for IntegerElement {
    fn from(o: (EbmlId, i64)) -> (r: IntegerElement) {
        IntegerElement { ebml_id: o.0, value: o.1 }
    }
}

impl FromSpecImpl<FloatElement> for ChildElement {
    open spec fn obeys_from_spec() -> bool {
        true
    }

    open spec fn from_spec(o: FloatElement) -> ChildElement {
        ChildElement::FloatElement(o)
    }
}

impl From<FloatElement> for ChildElement {
    fn from(o: FloatElement) -> (r: ChildElement) {
        ChildElement::FloatElement(o)
    }
}

impl FromSpecImpl<FloatElement> for Element {
    open spec fn obeys_from_spec() -> bool {
        true
    }

    open spec fn from_spec(o: FloatElement) -> Element {
        Element::ChildElement(ChildElement::FloatElement(o))
    }
}

impl From<FloatElement> for Element {
    fn from(o: FloatElement) -> (r: Element) {
        Element::ChildElement(ChildElement::FloatElement(o))
    }
}

impl FromSpecImpl<(EbmlId, u64)> for FloatElement {
    open spec fn obeys_from_spec() -> bool {
        true
    }

    open spec fn from_spec(o: (EbmlId, u64)) -> FloatElement {
        FloatElement { ebml_id: o.0, value: o.1 }
    }
}

impl From<(EbmlId, u64)> for FloatElement {
    fn from(o: (EbmlId, u64)) -> (r: FloatElement) {
        FloatElement { ebml_id: o.0, value: o.1 }
    }
}

impl FromSpecImpl<StringElement> for ChildElement {
    open spec fn obeys_from_spec() -> bool {
        true
    }

    open spec fn from_spec(o: StringElement) -> ChildElement {
        ChildElement::StringElement(o)
    }
}

impl From<StringElement> for ChildElement {
    fn from(o: StringElement) -> (r: ChildElement) {
        ChildElement::StringElement(o)
    }
}

impl FromSpecImpl<StringElement> for Element {
    open spec fn obeys_from_spec() -> bool {
        true
    }

    open spec fn from_spec(o: StringElement) -> Element {
        Element::ChildElement(ChildElement::StringElement(o))
    }
}

impl From<StringElement> for Element {
    fn from(o: StringElement) -> (r: Element) {
        Element::ChildElement(ChildElement::StringElement(o))
    }
}

impl FromSpecImpl<(EbmlId, Vec<u8>)> for StringElement {
    open spec fn obeys_from_spec() -> bool {
        true
    }

    open spec fn from_spec(o: (EbmlId, Vec<u8>)) -> StringElement {
        StringElement { ebml_id: o.0, value: o.1 }
    }
}

impl From<(EbmlId, Vec<u8>)> for StringElement {
    fn from(o: (EbmlId, Vec<u8>)) -> (r: StringElement) {
        StringElement { ebml_id: o.0, value: o.1 }
    }
}

impl FromSpecImpl<Utf8Element> for ChildElement {
    open spec fn obeys_from_spec() -> bool {
        true
    }

    open spec fn from_spec(o: Utf8Element) -> ChildElement {
        ChildElement::Utf8Element(o)
    }
}

impl From<Utf8Element> for ChildElement {
    fn from(o: Utf8Element) -> (r: ChildElement) {
        ChildElement::Utf8Element(o)
    }
}

impl FromSpecImpl<Utf8Element> for Element {
    open spec fn obeys_from_spec() -> bool {
        true
    }

    open spec fn from_spec(o: Utf8Element) -> Element {
        Element::ChildElement(ChildElement::Utf8Element(o))
    }
}

impl From<Utf8Element> for Element {
    fn from(o: Utf8Element) -> (r: Element) {
        Element::ChildElement(ChildElement::Utf8Element(o))
    }
}

impl FromSpecImpl<(EbmlId, String)> for Utf8Element {
    open spec fn obeys_from_spec() -> bool {
        true
    }

    open spec fn from_spec(o: (EbmlId, String)) -> Utf8Element {
        Utf8Element { ebml_id: o.0, value: o.1 }
    }
}

impl From<(EbmlId, String)> for Utf8Element {
    fn from(o: (EbmlId, String)) -> (r: Utf8Element) {
        Utf8Element { ebml_id: o.0, value: o.1 }
    }
}

impl FromSpecImpl<BinaryElement> for ChildElement {
    open spec fn obeys_from_spec() -> bool {
        true
    }

    open spec fn from_spec(o: BinaryElement) -> ChildElement {
        ChildElement::BinaryElement(o)
    }
}

impl From<BinaryElement> for ChildElement {
    fn from(o: BinaryElement) -> (r: ChildElement) {
        ChildElement::BinaryElement(o)
    }
}

impl FromSpecImpl<BinaryElement> for Element {
    open spec fn obeys_from_spec() -> bool {
        true
    }

    open spec fn from_spec(o: BinaryElement) -> Element {
        Element::ChildElement(ChildElement::BinaryElement(o))
    }
}

impl From<BinaryElement> for Element {
    fn from(o: BinaryElement) -> (r: Element) {
        Element::ChildElement(ChildElement::BinaryElement(o))
    }
}

impl FromSpecImpl<(EbmlId, Vec<u8>)> for BinaryElement {
    open spec fn obeys_from_spec() -> bool {
        true
    }

    open spec fn from_spec(o: (EbmlId, Vec<u8>)) -> BinaryElement {
        BinaryElement { ebml_id: o.0, value: o.1 }
    }
}

impl From<(EbmlId, Vec<u8>)> for BinaryElement {
    fn from(o: (EbmlId, Vec<u8>)) -> (r: BinaryElement) {
        BinaryElement { ebml_id: o.0, value: o.1 }
    }
}

impl FromSpecImpl<DateElement> for ChildElement {
    open spec fn obeys_from_spec() -> bool {
        true
    }

    open spec fn from_spec(o: DateElement) -> ChildElement {
        ChildElement::DateElement(o)
    }
}

impl From<DateElement> for ChildElement {
    fn from(o: DateElement) -> (r: ChildElement) {
        ChildElement::DateElement(o)
    }
}

impl FromSpecImpl<DateElement> for Element {
    open spec fn obeys_from_spec() -> bool {
        true
    }

    open spec fn from_spec(o: DateElement) -> Element {
        Element::ChildElement(ChildElement::DateElement(o))
    }
}

impl From<DateElement> for Element {
    fn from(o: DateElement) -> (r: Element) {
        Element::ChildElement(ChildElement::DateElement(o))
    }
}

impl FromSpecImpl<(EbmlId, i64)> for DateElement {
    open spec fn obeys_from_spec() -> bool {
        true
    }

    open spec fn from_spec(o: (EbmlId, i64)) -> DateElement {
        DateElement { ebml_id: o.0, value: o.1 }
    }
}

impl From<(EbmlId, i64)> for DateElement {
    fn from(o: (EbmlId, i64)) -> (r: DateElement) {
        DateElement { ebml_id: o.0, value: o.1 }
    }
}

impl FromSpecImpl<UnrepresentableLengthError> for DecodeError {
    open spec fn obeys_from_spec() -> bool {
        true
    }

    open spec fn from_spec(o: UnrepresentableLengthError) -> DecodeError {
        DecodeError::ReadVint(o)
    }
}

impl From<UnrepresentableLengthError> for DecodeError {
    fn from(o: UnrepresentableLengthError) -> (r: DecodeError) {
        DecodeError::ReadVint(o)
    }
}

impl FromSpecImpl<ReadContentError> for DecodeError {
    open spec fn obeys_from_spec() -> bool {
        true
    }

    open spec fn from_spec(o: ReadContentError) -> DecodeError {
        DecodeError::ReadContent(o)
    }
}

impl From<ReadContentError> for DecodeError {
    fn from(o: ReadContentError) -> (r: DecodeError) {
        DecodeError::ReadContent(o)
    }
}

impl FromSpecImpl<UnrepresentableValueError> for EncodeTagError {
    open spec fn obeys_from_spec() -> bool {
        true
    }

    open spec fn from_spec(o: UnrepresentableValueError) -> EncodeTagError {
        EncodeTagError::UnrepresentableValue(o)
    }
}

impl From<UnrepresentableValueError> for EncodeTagError {
    fn from(o: UnrepresentableValueError) -> (r: EncodeTagError) {
        EncodeTagError::UnrepresentableValue(o)
    }
}

impl FromSpecImpl<EncodeTagError> for EncodeError {
    open spec fn obeys_from_spec() -> bool {
        true
    }

    open spec fn from_spec(o: EncodeTagError) -> EncodeError {
        EncodeError::EncodeTag(o)
    }
}

impl From<EncodeTagError> for EncodeError {
    fn from(o: EncodeTagError) -> (r: EncodeError) {
        EncodeError::EncodeTag(o)
    }
}

} // verus!
