use kit_ais_dataset::fields::read_decimal;
use kit_ais_dataset::{
    decode, encode, serde_utc, serde_zero_one_bool, Box, Color, Dataset, Decimal, DecodeError,
    Depth, Frame, Object, ObjectList, Representation, RepresentationType, Tag, Timestamp,
};

fn dec(mantissa: i64, scale: u8) -> Decimal {
    Decimal { mantissa, scale }
}

fn stamp() -> Timestamp {
    Timestamp { year: 2017, month: 3, day: 3, hour: 14, minute: 5, second: 11, nanosecond: 123_456_000 }
}

fn object(id: usize) -> Object {
    Object {
        id,
        bbox: Box { xc: dec(100, 0), yc: dec(50, 0), w: dec(40, 0), h: dec(20, 0) },
        representation: Representation {
            kind: RepresentationType::RotatedRectangle,
            xc: dec(1005, 1),
            yc: dec(-503, 1),
            w: dec(40, 0),
            h: dec(20, 0),
            o: dec(-15708, 4),
        },
    }
}

fn frame(number: usize, full: bool) -> Frame {
    Frame {
        number,
        file: String::from("images/frame_0001.jpg"),
        utc: stamp(),
        color: if full { Some(Color::Rgb) } else { None },
        depth: if full { Some(Depth::Byte) } else { None },
        gsd: if full { Some(dec(125, 3)) } else { None },
        x: dec(12345, 2),
        y: dec(-7, 0),
        lat: dec(4812345678, 8),
        lon: dec(1134567890, 8),
        sunny: full,
        object_list: ObjectList { objects: vec![object(1), object(2)] },
    }
}

fn document(d: &Dataset) -> String {
    String::from_utf8(encode(d)).unwrap()
}

#[test]
fn round_trip_full_and_sparse_frames() {
    let d = Dataset { frames: vec![frame(0, true), frame(1, false)] };
    assert_eq!(decode(&encode(&d)), Ok(d));
}

#[test]
fn round_trip_empty_dataset() {
    let d = Dataset { frames: vec![] };
    assert_eq!(document(&d), "<dataset></dataset>");
    assert_eq!(decode(&encode(&d)), Ok(d));
}

#[test]
fn round_trip_frame_without_objects() {
    let mut f = frame(7, true);
    f.object_list.objects.clear();
    let d = Dataset { frames: vec![f] };
    assert_eq!(decode(&encode(&d)), Ok(d));
}

#[test]
fn encoded_fields_use_their_text_forms() {
    let text = document(&Dataset { frames: vec![frame(0, true)] });
    assert!(text.starts_with("<dataset><frame><number>0</number><file>images/frame_0001.jpg</file>"));
    assert!(text.contains("<utc>2017-Mar-03 14:05:11.123456</utc>"));
    assert!(text.contains("<color>rgb</color><depth>byte</depth><gsd>0.125</gsd>"));
    assert!(text.contains("<x>123.45</x><y>-7</y><lat>48.12345678</lat>"));
    assert!(text.contains("<sunny>1</sunny>"));
    assert!(text.contains("<type>rotated_rectangle</type>"));
    assert!(text.contains("<o>-1.5708</o>"));
}

#[test]
fn timestamp_text_decodes_and_reencodes() {
    let t = serde_utc::deserialize(b"2017-Mar-03 14:05:11.123456").unwrap();
    assert_eq!(t, stamp());
    assert_eq!(serde_utc::serialize(&t), b"2017-Mar-03 14:05:11.123456".to_vec());
}

#[test]
fn timestamp_whole_second_keeps_six_digits() {
    let t = Timestamp { year: 2016, month: 12, day: 31, hour: 23, minute: 59, second: 59, nanosecond: 0 };
    assert_eq!(serde_utc::serialize(&t), b"2016-Dec-31 23:59:59.000000".to_vec());
    assert_eq!(serde_utc::deserialize(b"2016-Dec-31 23:59:59.000000"), Ok(t));
    let t = Timestamp { year: 5, month: 1, day: 2, hour: 3, minute: 4, second: 5, nanosecond: 120_000 };
    assert_eq!(serde_utc::serialize(&t), b"0005-Jan-02 03:04:05.000120".to_vec());
}

#[test]
fn timestamp_must_match_the_format_exactly() {
    for bad in [
        &b"2017-Mar-03 14:05:11"[..],
        &b"2017-03-03 14:05:11.123456"[..],
        &b"2017-Feb-30 14:05:11.123456"[..],
        &b"2017-mar-03 14:05:11.123456"[..],
        &b"2017-Mar-3 14:05:11.123456"[..],
        &b"2017-Mar-03 14:05:11.123"[..],
        &b"2017-Mar-03 14:05:11.1234567"[..],
    ] {
        assert_eq!(
            serde_utc::deserialize(bad),
            Err(DecodeError::Field { tag: Tag::Utc, text: bad.to_vec() })
        );
    }
}

#[test]
fn timestamp_in_wrong_format_is_refused() {
    let r = serde_utc::deserialize(b"2017-03-03 14:05:11");
    assert_eq!(r, Err(DecodeError::Field { tag: Tag::Utc, text: b"2017-03-03 14:05:11".to_vec() }));
}

#[test]
fn boolean_zero_one() {
    assert_eq!(serde_zero_one_bool::deserialize(b"1"), Ok(true));
    assert_eq!(serde_zero_one_bool::deserialize(b"0"), Ok(false));
    assert_eq!(serde_zero_one_bool::serialize(true), b"1".to_vec());
    assert_eq!(serde_zero_one_bool::serialize(false), b"0".to_vec());
}

#[test]
fn boolean_other_literals_are_refused() {
    for bad in [&b"yes"[..], &b"2"[..], &b""[..]] {
        assert_eq!(
            serde_zero_one_bool::deserialize(bad),
            Err(DecodeError::Field { tag: Tag::Sunny, text: bad.to_vec() })
        );
    }
}

#[test]
fn non_finite_numbers_fail_decode() {
    let good = document(&Dataset { frames: vec![frame(0, false)] });
    for bad in ["NaN", "Infinity", "inf"] {
        let text = good.replace("<x>123.45</x>", &format!("<x>{}</x>", bad));
        assert_eq!(
            decode(text.as_bytes()),
            Err(DecodeError::Field { tag: Tag::X, text: bad.as_bytes().to_vec() })
        );
    }
}

#[test]
fn decimal_text_forms() {
    let b = b"-12.50";
    assert_eq!(read_decimal(b, 0, b.len(), Tag::X), Ok(dec(-1250, 2)));
    let b = b"0.125";
    assert_eq!(read_decimal(b, 0, b.len(), Tag::X), Ok(dec(125, 3)));
    for bad in [&b"007"[..], &b"-0"[..], &b"1.5e3"[..], &b"1."[..], &b".5"[..], &b"-"[..], &b"1.2.3"[..], &b""[..], &b"99999999999999999999"[..]] {
        assert_eq!(
            read_decimal(bad, 0, bad.len(), Tag::Y),
            Err(DecodeError::Field { tag: Tag::Y, text: bad.to_vec() })
        );
    }
}

#[test]
fn unknown_color_names_the_value() {
    let good = document(&Dataset { frames: vec![frame(0, true)] });
    let text = good.replace("<color>rgb</color>", "<color>cmyk</color>");
    assert_eq!(
        decode(text.as_bytes()),
        Err(DecodeError::Field { tag: Tag::Color, text: b"cmyk".to_vec() })
    );
}

#[test]
fn unknown_depth_and_type_are_refused() {
    let good = document(&Dataset { frames: vec![frame(0, true)] });
    let text = good.replace("<depth>byte</depth>", "<depth>Byte</depth>");
    assert_eq!(
        decode(text.as_bytes()),
        Err(DecodeError::Field { tag: Tag::Depth, text: b"Byte".to_vec() })
    );
    let text = good.replace("rotated_rectangle", "rectangle");
    assert_eq!(
        decode(text.as_bytes()),
        Err(DecodeError::Field { tag: Tag::Type, text: b"rectangle".to_vec() })
    );
}

#[test]
fn missing_field_is_a_markup_error() {
    let good = document(&Dataset { frames: vec![frame(0, false)] });
    let text = good.replace("<sunny>0</sunny>", "");
    assert!(matches!(decode(text.as_bytes()), Err(DecodeError::Markup { .. })));
    assert!(matches!(decode(b"<dataset>"), Err(DecodeError::Markup { .. })));
    let trailing = format!("{}x", good);
    assert!(matches!(decode(trailing.as_bytes()), Err(DecodeError::Markup { .. })));
}

#[test]
fn file_name_with_markup_character_is_refused() {
    let good = document(&Dataset { frames: vec![frame(0, false)] });
    let text = good.replace("images/frame_0001.jpg", "a&b.jpg");
    assert_eq!(
        decode(text.as_bytes()),
        Err(DecodeError::Field { tag: Tag::File, text: b"a&b.jpg".to_vec() })
    );
}

#[test]
fn indented_document_with_declaration_decodes() {
    let d = Dataset { frames: vec![frame(0, true), frame(1, false)] };
    let text = document(&d).replace("><", ">\n  <");
    let text = format!("<?xml version=\"1.0\" encoding=\"utf-8\"?>\n{}\n", text);
    assert_eq!(decode(text.as_bytes()), Ok(d));
}

#[test]
fn count_with_leading_zero_is_refused() {
    let good = document(&Dataset { frames: vec![frame(3, false)] });
    let text = good.replace("<number>3</number>", "<number>03</number>");
    assert_eq!(
        decode(text.as_bytes()),
        Err(DecodeError::Field { tag: Tag::Number, text: b"03".to_vec() })
    );
}

#[test]
fn file_name_markup_characters_are_escaped() {
    let mut f = frame(0, false);
    f.file = String::from("dir/a&b<c>é.png");
    let d = Dataset { frames: vec![f] };
    let text = document(&d);
    assert!(text.contains("<file>dir/a&amp;b&lt;c&gt;é.png</file>"));
    assert_eq!(decode(text.as_bytes()), Ok(d));
}
