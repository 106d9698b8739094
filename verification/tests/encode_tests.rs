//! The encoder: exact wire bytes, decode/encode round trips under every
//! dialect, and the runtime well-formedness check.

use shen_nbt5::Endian;
use shen_nbt5::NbtValue;
use shen_nbt5::NbtVersion;

/// A tree using every payload kind, lengths chosen to exercise both short
/// and multi-byte variable-width fields.
fn rich_tree() -> NbtValue {
    NbtValue::Compound(
        Some("root".to_string()),
        vec![
            ("b".to_string(), NbtValue::Byte(-7)),
            ("s".to_string(), NbtValue::Short(-12345)),
            ("i".to_string(), NbtValue::Int(0x01020304)),
            ("l".to_string(), NbtValue::Long(-98765432101112)),
            ("f".to_string(), NbtValue::Float(std::f32::consts::PI.to_bits())),
            ("d".to_string(), NbtValue::Double(std::f64::consts::PI.to_bits())),
            ("bytes".to_string(), NbtValue::ByteArray((0..200).map(|i| i as i8).collect())),
            ("text".to_string(), NbtValue::String("Bananrama \u{554a}".to_string())),
            (
                "list".to_string(),
                NbtValue::List(vec![
                    NbtValue::Int(1),
                    NbtValue::Int(2),
                    NbtValue::Int(3),
                ]),
            ),
            (
                "nested".to_string(),
                NbtValue::Compound(
                    None,
                    vec![("inner".to_string(), NbtValue::String("x".to_string()))],
                ),
            ),
            ("ints".to_string(), NbtValue::IntArray(vec![1, -1, i32::MAX, i32::MIN])),
            ("longs".to_string(), NbtValue::LongArray(vec![2, -2, i64::MAX, i64::MIN])),
            ("empty list".to_string(), NbtValue::List(Vec::new())),
        ],
    )
}

/// A copy of `rich_tree` with the root name the dialect expects.
fn rich_tree_for(version: NbtVersion) -> NbtValue {
    let tree = rich_tree();
    if version.root_named() {
        tree
    } else {
        match tree {
            NbtValue::Compound(_, entries) => NbtValue::Compound(None, entries),
            other => other,
        }
    }
}

#[test]
fn round_trip_java() {
    let tree = rich_tree_for(NbtVersion::Java);
    let bytes = tree.try_to_binary(NbtVersion::Java).unwrap();
    assert_eq!(NbtValue::from_binary(bytes, NbtVersion::Java), Ok(tree));
}

#[test]
fn round_trip_java_network() {
    let tree = rich_tree_for(NbtVersion::JavaNetAfter1_20_2);
    let bytes = tree.try_to_binary(NbtVersion::JavaNetAfter1_20_2).unwrap();
    assert_eq!(NbtValue::from_binary(bytes, NbtVersion::JavaNetAfter1_20_2), Ok(tree));
}

#[test]
fn round_trip_bedrock_disk() {
    let tree = rich_tree_for(NbtVersion::BedrockDisk);
    let bytes = tree.try_to_binary(NbtVersion::BedrockDisk).unwrap();
    assert_eq!(NbtValue::from_binary(bytes, NbtVersion::BedrockDisk), Ok(tree));
}

#[test]
fn round_trip_bedrock_varint() {
    let tree = rich_tree_for(NbtVersion::BedrockNetVarInt);
    let bytes = tree.try_to_binary(NbtVersion::BedrockNetVarInt).unwrap();
    assert_eq!(NbtValue::from_binary(bytes, NbtVersion::BedrockNetVarInt), Ok(tree));
}

#[test]
fn encode_hello_world_exact_bytes() {
    let tree = NbtValue::Compound(
        Some("hello world".to_string()),
        vec![("name".to_string(), NbtValue::String("Bananrama".to_string()))],
    );
    let expected: Vec<u8> = vec![
        0x0A, 0x00, 0x0B, 0x68, 0x65, 0x6C, 0x6C, 0x6F, 0x20, 0x77, 0x6F, 0x72, 0x6C, 0x64, 0x08,
        0x00, 0x04, 0x6E, 0x61, 0x6D, 0x65, 0x00, 0x09, 0x42, 0x61, 0x6E, 0x61, 0x6E, 0x72, 0x61,
        0x6D, 0x61, 0x00,
    ];
    assert_eq!(tree.try_to_binary(NbtVersion::Java), Some(expected));
}

#[test]
fn empty_list_root_round_trips_exactly() {
    // a root List with an empty name: element tag is the end sentinel and
    // the count is zero, and re-encoding returns the identical bytes
    let data: Vec<u8> = vec![0x09, 0x00, 0x00, 0x00, 0x00, 0x00, 0x00, 0x00];
    let value = NbtValue::from_binary(data.clone(), NbtVersion::Java).unwrap();
    assert_eq!(value, NbtValue::List(Vec::new()));
    assert_eq!(value.try_to_binary(NbtVersion::Java), Some(data));
}

#[test]
fn little_endian_scalar_bytes() {
    let data: Vec<u8> = vec![0x03, 0x00, 0x00, 0x04, 0x03, 0x02, 0x01];
    assert_eq!(
        NbtValue::from_binary(data.clone(), NbtVersion::BedrockDisk),
        Ok(NbtValue::Int(0x01020304))
    );
    assert_eq!(NbtValue::Int(0x01020304).try_to_binary(NbtVersion::BedrockDisk), Some(data));
}

#[test]
fn varint_lengths_on_the_wire() {
    // 200 bytes of payload: the count takes two variable-width bytes
    let payload: Vec<i8> = (0..200).map(|i| i as i8).collect();
    let tree = NbtValue::ByteArray(payload.clone());
    let bytes = tree.try_to_binary(NbtVersion::BedrockNetVarInt).unwrap();
    // tag, empty root name (one varint byte), count 200 = 0xC8 0x01
    assert_eq!(&bytes[..4], &[0x07, 0x00, 0xC8, 0x01]);
    assert_eq!(bytes.len(), 4 + 200);
    assert_eq!(
        NbtValue::from_binary(bytes, NbtVersion::BedrockNetVarInt),
        Ok(NbtValue::ByteArray(payload))
    );
}

#[test]
fn heterogeneous_list_is_rejected() {
    let tree = NbtValue::List(vec![NbtValue::Byte(1), NbtValue::Int(2)]);
    assert!(!tree.is_well_formed(NbtVersion::Java));
    assert_eq!(tree.try_to_binary(NbtVersion::Java), None);
}

#[test]
fn root_name_must_match_dialect() {
    let named = NbtValue::Compound(Some("a".to_string()), Vec::new());
    let unnamed = NbtValue::Compound(None, Vec::new());
    assert!(named.is_well_formed(NbtVersion::Java));
    assert!(!unnamed.is_well_formed(NbtVersion::Java));
    assert!(!named.is_well_formed(NbtVersion::JavaNetAfter1_20_2));
    assert!(unnamed.is_well_formed(NbtVersion::JavaNetAfter1_20_2));
}

#[test]
fn nested_compound_name_is_rejected() {
    let tree = NbtValue::Compound(
        Some("root".to_string()),
        vec![(
            "child".to_string(),
            NbtValue::Compound(Some("must not be here".to_string()), Vec::new()),
        )],
    );
    assert!(!tree.is_well_formed(NbtVersion::Java));
    assert_eq!(tree.try_to_binary(NbtVersion::Java), None);
}

#[test]
fn too_deep_tree_is_rejected() {
    let mut tree = NbtValue::Compound(None, Vec::new());
    for _ in 0..shen_nbt5::MAX_DEPTH + 2 {
        tree = NbtValue::Compound(None, vec![(String::new(), tree)]);
    }
    let root = match tree {
        NbtValue::Compound(_, entries) => NbtValue::Compound(Some(String::new()), entries),
        other => other,
    };
    assert!(!root.is_well_formed(NbtVersion::Java));
    assert_eq!(root.try_to_binary(NbtVersion::Java), None);
}

#[test]
fn non_compound_root_under_named_dialect() {
    // a named-root dialect writes an empty name for a non-compound root,
    // and the round trip preserves the value
    let tree = NbtValue::Short(-2);
    let bytes = tree.try_to_binary(NbtVersion::Java).unwrap();
    assert_eq!(bytes, vec![0x02, 0x00, 0x00, 0xFF, 0xFE]);
    assert_eq!(NbtValue::from_binary(bytes, NbtVersion::Java), Ok(NbtValue::Short(-2)));
}

#[test]
fn dialect_knobs() {
    assert_eq!(NbtVersion::Java.endianness(), Endian::Big);
    assert_eq!(NbtVersion::JavaNetAfter1_20_2.endianness(), Endian::Big);
    assert_eq!(NbtVersion::BedrockDisk.endianness(), Endian::Little);
    assert_eq!(NbtVersion::BedrockNetVarInt.endianness(), Endian::Little);
    assert!(NbtVersion::Java.root_named());
    assert!(!NbtVersion::JavaNetAfter1_20_2.root_named());
    assert!(NbtVersion::BedrockDisk.root_named());
    assert!(NbtVersion::BedrockNetVarInt.root_named());
    assert!(!NbtVersion::Java.varint_lengths());
    assert!(NbtVersion::BedrockNetVarInt.varint_lengths());
}
