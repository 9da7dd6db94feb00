//! Tests of the tag codec: the binary writer, the parser, the string
//! encoding, and their round trips.

use nombrilo::de;
use nombrilo::de::Error;
use nombrilo::mutf8;
use nombrilo::nbt::owned::{NamedTag, Tag};
use nombrilo::nbt::TagType;
use nombrilo::ser;

fn entry(name: &str, value: Tag) -> NamedTag {
    NamedTag { name: name.to_string(), value }
}

fn example_tag() -> Tag {
    let item1 = Tag::Compound(vec![
        entry("name", Tag::String("test".to_string())),
        entry("count", Tag::Int(1)),
    ]);
    let item2 = Tag::Compound(vec![
        entry("name", Tag::String("test2".to_string())),
        entry("count", Tag::Int(2)),
    ]);
    Tag::Compound(vec![
        entry("name", Tag::String("test nbt".to_string())),
        entry("age", Tag::Short(40)),
        entry("inventory", Tag::List(TagType::Compound, vec![item1, item2])),
    ])
}

fn example_bytes() -> Vec<u8> {
    vec![
        0x0a, 0x00, 0x00, // compound, empty name
        0x08, // string
        0x00, 0x04, 0x6e, 0x61, 0x6d, 0x65, // name "name"
        0x00, 0x08, 0x74, 0x65, 0x73, 0x74, 0x20, 0x6e, 0x62, 0x74, // value "test nbt"
        0x02, // short
        0x00, 0x03, 0x61, 0x67, 0x65, // name "age"
        0x00, 0x28, // value 40
        0x09, 0x00, 0x09, 0x69, 0x6e, 0x76, 0x65, 0x6e, 0x74, 0x6f, 0x72,
        0x79, // name "inventory"
        0x0a, 0x00, 0x00, 0x00, 0x02, // list of type compound, len 2
        0x08, // string
        0x00, 0x04, 0x6e, 0x61, 0x6d, 0x65, // name "name"
        0x00, 0x04, 0x74, 0x65, 0x73, 0x74, // value "test"
        0x03, // int
        0x00, 0x05, 0x63, 0x6f, 0x75, 0x6e, 0x74, // name "count"
        0x00, 0x00, 0x00, 0x01, // value 1
        0x00, // end tag
        0x08, // string
        0x00, 0x04, 0x6e, 0x61, 0x6d, 0x65, // name "name"
        0x00, 0x05, 0x74, 0x65, 0x73, 0x74, 0x32, // value "test2"
        0x03, // int
        0x00, 0x05, 0x63, 0x6f, 0x75, 0x6e, 0x74, // name "count"
        0x00, 0x00, 0x00, 0x02, // value 2
        0x00, // end tag
        0x00, // end tag
    ]
}

#[test]
fn test_nbt() {
    let mut buffer: Vec<u8> = Vec::new();
    ser::to_writer(&mut buffer, &example_tag()).unwrap();
    assert_eq!(buffer, example_bytes());
}

#[test]
fn test_from_slice() {
    let tag = de::from_slice(&example_bytes()).unwrap();
    let entries = match tag {
        Tag::Compound(es) => es,
        _ => panic!("expected a compound"),
    };
    assert_eq!(entries.len(), 3);
    assert_eq!(entries[0].name, "name");
    match &entries[0].value {
        Tag::String(s) => assert_eq!(s, "test nbt"),
        _ => panic!("expected a string"),
    }
    assert_eq!(entries[1].name, "age");
    match &entries[1].value {
        Tag::Short(v) => assert_eq!(*v, 40),
        _ => panic!("expected a short"),
    }
    assert_eq!(entries[2].name, "inventory");
    match &entries[2].value {
        Tag::List(et, items) => {
            assert_eq!(*et, TagType::Compound);
            assert_eq!(items.len(), 2);
            match &items[1] {
                Tag::Compound(es) => {
                    assert_eq!(es[0].name, "name");
                    match &es[1].value {
                        Tag::Int(v) => assert_eq!(*v, 2),
                        _ => panic!("expected an int"),
                    }
                },
                _ => panic!("expected a compound"),
            }
        },
        _ => panic!("expected a list"),
    }
}

#[test]
fn test_document_round_trip_bytes() {
    // decode then encode gives the document back, byte for byte
    let bytes = example_bytes();
    let tag = de::from_slice(&bytes).unwrap();
    let mut out: Vec<u8> = Vec::new();
    ser::to_writer(&mut out, &tag).unwrap();
    assert_eq!(out, bytes);
}

#[test]
fn test_value_round_trip() {
    // encode then decode gives the value back, for every tag kind at once
    let value = Tag::Compound(vec![
        entry("b", Tag::Byte(-7)),
        entry("s", Tag::Short(-300)),
        entry("i", Tag::Int(123456)),
        entry("l", Tag::Long(-98765432100)),
        entry("f", Tag::Float(0x3f800000)),
        entry("d", Tag::Double(0x3ff0000000000000)),
        entry(
            "ba",
            Tag::ByteArray(nombrilo::nbt::owned::ByteArray::new(vec![1, 2, 255])),
        ),
        entry("str", Tag::String("héllo \u{0} and \u{1D11E}".to_string())),
        entry("empty_list", Tag::List(TagType::End, vec![])),
        entry("ints", Tag::List(TagType::Int, vec![Tag::Int(4), Tag::Int(5)])),
        entry(
            "ia",
            Tag::IntArray(nombrilo::nbt::owned::IntArray::new(vec![
                0, 0, 0, 1, 255, 255, 255, 255,
            ])),
        ),
        entry(
            "la",
            Tag::LongArray(nombrilo::nbt::owned::LongArray::new(vec![
                0, 0, 0, 0, 0, 0, 0, 9,
            ])),
        ),
        entry("inner", Tag::Compound(vec![entry("x", Tag::Byte(1))])),
    ]);
    let mut bytes: Vec<u8> = Vec::new();
    ser::to_writer(&mut bytes, &value).unwrap();
    let back = de::from_slice(&bytes).unwrap();
    let mut bytes_again: Vec<u8> = Vec::new();
    ser::to_writer(&mut bytes_again, &back).unwrap();
    assert_eq!(bytes, bytes_again);
    match back {
        Tag::Compound(es) => {
            assert_eq!(es.len(), 13);
            match &es[7].value {
                Tag::String(s) => assert_eq!(s, "héllo \u{0} and \u{1D11E}"),
                _ => panic!("expected a string"),
            }
            match &es[10].value {
                Tag::IntArray(a) => assert_eq!(a.to_vec(), vec![1, -1]),
                _ => panic!("expected an int array"),
            }
            match &es[11].value {
                Tag::LongArray(a) => assert_eq!(a.to_vec(), vec![9]),
                _ => panic!("expected a long array"),
            }
        },
        _ => panic!("expected a compound"),
    }
}

#[test]
fn test_mutf8_round_trip() {
    for text in ["", "plain ascii", "héllo wörld", "null \u{0} inside", "clef \u{1D11E}!"] {
        let encoded = mutf8::encode(text);
        let decoded = mutf8::decode(&encoded).unwrap();
        assert_eq!(decoded, text);
    }
}

#[test]
fn test_mutf8_null_is_two_bytes() {
    let encoded = mutf8::encode("\u{0}");
    assert_eq!(encoded, vec![0xc0, 0x80]);
    let encoded = mutf8::encode("\u{1D11E}");
    assert_eq!(encoded.len(), 6);
    assert_eq!(encoded[0], 0xed);
    assert_eq!(encoded[3], 0xed);
}

#[test]
fn test_mutf8_rejects_non_canonical() {
    // a raw NUL byte, a lone surrogate half, and a four-byte sequence
    assert!(mutf8::decode(&[0x00]).is_none());
    assert!(mutf8::decode(&[0xed, 0xa0, 0x80]).is_none());
    assert!(mutf8::decode(&[0xf0, 0x9d, 0x84, 0x9e]).is_none());
    assert!(mutf8::decode(&[0xc1, 0x81]).is_none());
}

#[test]
fn test_decode_errors() {
    // a byte that names no tag kind
    assert!(matches!(de::from_slice(&[0x0d, 0x00, 0x00]), Err(Error::InvalidTagType(13))));
    // input ends inside the name
    assert!(matches!(de::from_slice(&[0x0a, 0x00]), Err(Error::Io)));
    // a scalar at the top level
    assert!(matches!(
        de::from_slice(&[0x01, 0x00, 0x00, 0x07]),
        Err(Error::InvalidTopLevel(TagType::Byte))
    ));
    // a byte array with a negative length
    assert!(matches!(
        de::from_slice(&[0x0a, 0x00, 0x00, 0x07, 0x00, 0x01, 0x61, 0xff, 0xff, 0xff, 0xff]),
        Err(Error::NegativeLength)
    ));
    // a non-empty list of End tags
    assert!(matches!(
        de::from_slice(&[
            0x0a, 0x00, 0x00, 0x09, 0x00, 0x01, 0x61, 0x00, 0x00, 0x00, 0x00, 0x01, 0x00,
        ]),
        Err(Error::UnexpectedEndTag)
    ));
    // a string that is not canonical modified UTF-8
    assert!(matches!(
        de::from_slice(&[0x0a, 0x00, 0x00, 0x08, 0x00, 0x01, 0x61, 0x00, 0x01, 0x00, 0x00]),
        Err(Error::InvalidMUTF8)
    ));
}

#[test]
fn test_encode_errors() {
    // an End tag is a terminator, not a value
    let mut out: Vec<u8> = Vec::new();
    assert!(matches!(
        ser::to_writer(&mut out, &Tag::Compound(vec![entry("x", Tag::End)])),
        Err(ser::Error::Message(_))
    ));
    // a string longer than its 16-bit length counter
    let big = "a".repeat(70000);
    let mut out2: Vec<u8> = Vec::new();
    assert!(matches!(
        ser::to_writer(&mut out2, &Tag::String(big)),
        Err(ser::Error::StringTooBig)
    ));
}

#[test]
fn test_snbt() {
    let mut buffer: Vec<u8> = Vec::new();
    ser::to_snbt_writer(&mut buffer, &example_tag()).unwrap();
    assert_eq!(
        String::from_utf8_lossy(&buffer),
        "{\"name\":\"test nbt\",\"age\":40s,\"inventory\":[{\"name\":\"test\",\"count\":1},{\"name\":\"test2\",\"count\":2}]}",
    );
}

#[test]
fn test_snbt_arrays_and_negatives() {
    let tag = Tag::Compound(vec![
        entry(
            "ba",
            Tag::ByteArray(nombrilo::nbt::owned::ByteArray::new(vec![1, 255])),
        ),
        entry(
            "ia",
            Tag::IntArray(nombrilo::nbt::owned::IntArray::new(vec![
                0, 0, 0, 2, 255, 255, 255, 255,
            ])),
        ),
        entry(
            "la",
            Tag::LongArray(nombrilo::nbt::owned::LongArray::new(vec![
                0, 0, 0, 0, 0, 0, 0, 3,
            ])),
        ),
        entry("neg", Tag::Long(-9223372036854775808)),
    ]);
    let mut buffer: Vec<u8> = Vec::new();
    ser::to_snbt_writer(&mut buffer, &tag).unwrap();
    assert_eq!(
        String::from_utf8_lossy(&buffer),
        "{\"ba\":[B;1b,-1b],\"ia\":[I;2,-1],\"la\":[L;3l],\"neg\":-9223372036854775808l}",
    );
}

#[test]
fn test_snbt_refuses_floats() {
    let mut buffer: Vec<u8> = Vec::new();
    assert!(ser::to_snbt_writer(&mut buffer, &Tag::Float(0x3f800000)).is_err());
}

#[test]
fn test_tag_type_codes() {
    assert_eq!(TagType::try_from_u8(0), Ok(TagType::End));
    assert_eq!(TagType::try_from_u8(12), Ok(TagType::LongArray));
    assert!(TagType::try_from_u8(13).is_err());
    for code in 0u8..13u8 {
        assert_eq!(TagType::try_from_u8(code).unwrap().to_u8(), code);
    }
}
