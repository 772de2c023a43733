use ebml::vint::{
    read_vint, read_vint_from, write_vint, ReadVintError, UnrepresentableLengthError,
    UnrepresentableValueError, Vint, WriteVintError, WriteVintExt,
};

#[test]
fn write_at_the_boundaries_of_one_byte() {
    assert_eq!(write_vint(0).unwrap(), vec![0x80]);
    assert_eq!(write_vint((1 << 7) - 2).unwrap(), vec![0xfe]);
    assert_eq!(write_vint((1 << 7) - 1).unwrap(), vec![0x40, 0x7f]);
}

#[test]
fn read_of_the_reserved_byte() {
    assert_eq!(read_vint(&[0xff], 0), Ok(Some(Vint { length: 1, value: 127 })));
}

#[test]
fn read_of_nine_bytes_or_more_is_refused() {
    assert_eq!(
        read_vint(&[0x00, 0x80, 0x00], 0),
        Err(UnrepresentableLengthError { length: 9 })
    );
    assert_eq!(
        read_vint_from(&[0x00], 0),
        Err(ReadVintError::UnrepresentableLength(UnrepresentableLengthError { length: 9 }))
    );
}

#[test]
fn read_of_an_incomplete_encoding_gives_nothing() {
    assert_eq!(read_vint(&[], 0), Ok(None));
    assert_eq!(read_vint(&[0x40], 0), Ok(None));
    assert_eq!(read_vint(&[0x01, 0, 0, 0, 0, 0, 0], 0), Ok(None));
    assert_eq!(read_vint(&[0x80], 1), Ok(None));
    assert_eq!(read_vint(&[0x80], 7), Ok(None));
    assert_eq!(read_vint_from(&[0x20, 0x01], 0), Err(ReadVintError::NeedMoreBuffer));
}

#[test]
fn read_takes_the_payload_of_eight_bytes() {
    let buf = [0x01, 0xff, 0xff, 0xff, 0xff, 0xff, 0xff, 0xff];
    assert_eq!(read_vint(&buf, 0), Ok(Some(Vint { length: 8, value: (1 << 56) - 1 })));
    let buf = [0xaa, 0x10, 0x12, 0x34, 0x56, 0xbb];
    assert_eq!(read_vint(&buf, 1), Ok(Some(Vint { length: 4, value: 0x12_3456 })));
}

#[test]
fn write_refuses_what_cannot_be_written() {
    assert_eq!(write_vint(-1), Err(UnrepresentableValueError { value: -1 }));
    assert_eq!(
        write_vint((1 << 56) - 1),
        Err(UnrepresentableValueError { value: (1 << 56) - 1 })
    );
    assert_eq!(write_vint(i64::MAX), Err(UnrepresentableValueError { value: i64::MAX }));
    assert_eq!(write_vint(i64::MIN), Err(UnrepresentableValueError { value: i64::MIN }));
}

#[test]
fn write_never_gives_the_reserved_payload() {
    let mut length = 1;
    while length <= 7 {
        let reserved = (1i64 << (7 * length)) - 1;
        let buf = write_vint(reserved).unwrap();
        assert_eq!(buf.len(), length + 1);
        let vint = read_vint(&buf, 0).unwrap().unwrap();
        assert_eq!(vint.value, reserved);
        let below = write_vint(reserved - 1).unwrap();
        assert_eq!(below.len(), length);
        length += 1;
    }
}

#[test]
fn write_to_a_sink_appends() {
    let mut sink = vec![0x11u8];
    assert_eq!(sink.write_vint(300), Ok(()));
    assert_eq!(sink, vec![0x11, 0x41, 0x2c]);
    assert_eq!(
        sink.write_vint(-5),
        Err(WriteVintError::UnrepresentableValue(UnrepresentableValueError { value: -5 }))
    );
    assert_eq!(sink, vec![0x11, 0x41, 0x2c]);
}
