use imessage_database::archive::{Archivable, Class, DecodeError, OutputData, Type};
use imessage_database::typedstream::TypedStreamReader;

/// A buffer whose fixed-size header is followed by `body`.
fn with_header(body: &[u8]) -> Vec<u8> {
    let mut bytes = vec![0u8; 16];
    bytes.extend_from_slice(body);
    bytes
}

#[test]
fn decodes_single_utf8_string() {
    let bytes = with_header(&[0x84, 1, 0x2B, 5, b'H', b'e', b'l', b'l', b'o']);
    let mut reader = TypedStreamReader::new(&bytes);
    let result = reader.parse();
    assert_eq!(result, Ok(vec![vec![OutputData::Text("Hello".to_string())]]));
}

#[test]
fn reuses_type_list_by_reference() {
    // The second entry's type list is a back-reference to the first's.
    let bytes = with_header(&[
        0x84, 1, 0x2B, 5, b'H', b'e', b'l', b'l', b'o', 0x92, 3, b'a', b'b', b'c',
    ]);
    let mut reader = TypedStreamReader::new(&bytes);
    let result = reader.parse();
    assert_eq!(
        result,
        Ok(vec![
            vec![OutputData::Text("Hello".to_string())],
            vec![OutputData::Text("abc".to_string())],
        ])
    );
    // Only one type list was ever registered.
    assert_eq!(reader.types_table.len(), 1);
}

#[test]
fn class_chain_registers_in_order() {
    // A(v1) -> B(v2) -> empty, then a back-reference to index 0.
    let bytes = [0x84, 1, b'A', 1, 0x84, 1, b'B', 2, 0x85, 0x92];
    let mut reader = TypedStreamReader::new(&bytes);
    let first = reader.read_class();
    assert_eq!(first, Ok(Some(1)));
    assert_eq!(reader.object_table.len(), 2);
    assert_eq!(
        reader.object_table[0],
        Archivable::Class(Class::new("A".to_string(), 1))
    );
    assert_eq!(
        reader.object_table[1],
        Archivable::Class(Class::new("B".to_string(), 2))
    );
    let before = reader.idx;
    let second = reader.read_class();
    assert_eq!(second, Ok(Some(0)));
    // The back-reference consumed exactly the pointer byte: no new name
    // or version bytes were read, and nothing new was registered.
    assert_eq!(reader.idx, before + 1);
    assert_eq!(reader.object_table.len(), 2);
    match reader.resolve_object(0) {
        Ok(entry) => assert_eq!(*entry, Archivable::Class(Class::new("A".to_string(), 1))),
        Err(_) => panic!("index 0 must resolve"),
    }
}

#[test]
fn unknown_type_code_passes_through() {
    let bytes = with_header(&[0x84, 1, 0xEE]);
    let mut reader = TypedStreamReader::new(&bytes);
    let result = reader.parse();
    assert_eq!(result, Ok(vec![vec![OutputData::RawByte(0xEE)]]));
}

#[test]
fn parse_is_deterministic() {
    let bytes = with_header(&[
        0x84, 1, 0x2B, 5, b'H', b'e', b'l', b'l', b'o', 0x92, 3, b'a', b'b', b'c',
    ]);
    let mut first = TypedStreamReader::new(&bytes);
    let mut second = TypedStreamReader::new(&bytes);
    assert_eq!(first.parse(), second.parse());
}

#[test]
fn truncated_buffers_fail_cleanly() {
    let bytes = with_header(&[0x84, 1, 0x2B, 5, b'H', b'e', b'l', b'l', b'o']);
    for cut in 0..bytes.len() {
        let mut reader = TypedStreamReader::new(&bytes[..cut]);
        let result = reader.parse();
        if cut == 16 {
            // Exactly the header: an empty stream of entries.
            assert_eq!(result, Ok(vec![]));
        } else {
            assert_eq!(result, Err(DecodeError::UnexpectedEndOfStream));
        }
    }
}

#[test]
fn invalid_utf8_reports_invalid_text() {
    let bytes = with_header(&[0x84, 1, 0x2B, 2, 0xFF, 0xFE]);
    let mut reader = TypedStreamReader::new(&bytes);
    assert_eq!(reader.parse(), Err(DecodeError::InvalidText));
}

#[test]
fn unresolved_type_reference_is_an_error() {
    let bytes = with_header(&[0x93]);
    let mut reader = TypedStreamReader::new(&bytes);
    assert_eq!(reader.parse(), Err(DecodeError::UnresolvedReference(1)));
}

#[test]
fn unresolved_object_reference_is_an_error() {
    let bytes = with_header(&[0x84, 1, 0x40, 0x93]);
    let mut reader = TypedStreamReader::new(&bytes);
    assert_eq!(reader.parse(), Err(DecodeError::UnresolvedReference(1)));
}

#[test]
fn non_pointer_byte_is_malformed() {
    let bytes = with_header(&[0x50]);
    let mut reader = TypedStreamReader::new(&bytes);
    assert_eq!(reader.parse(), Err(DecodeError::MalformedClassChain));
}

#[test]
fn number_codes_read_one_byte_each() {
    let bytes = with_header(&[0x84, 2, 0x69, 0x49, 7, 9]);
    let mut reader = TypedStreamReader::new(&bytes);
    let result = reader.parse();
    assert_eq!(
        result,
        Ok(vec![vec![OutputData::Number(7), OutputData::Number(9)]])
    );
}

#[test]
fn embedded_data_splices_inline() {
    let bytes = with_header(&[0x84, 1, 0x2A, 0x84, 0x84, 1, 0x2B, 2, b'a', b'b']);
    let mut reader = TypedStreamReader::new(&bytes);
    let result = reader.parse();
    assert_eq!(result, Ok(vec![vec![OutputData::Text("ab".to_string())]]));
}

#[test]
fn object_resolves_to_class_descriptor() {
    let bytes = with_header(&[0x84, 1, 0x40, 0x84, 1, b'A', 3, 0x85]);
    let mut reader = TypedStreamReader::new(&bytes);
    let result = reader.parse();
    assert_eq!(
        result,
        Ok(vec![vec![OutputData::ClassDescriptor(Class::new(
            "A".to_string(),
            3
        ))]])
    );
}

#[test]
fn empty_object_yields_empty_value() {
    let bytes = with_header(&[0x84, 1, 0x40, 0x85]);
    let mut reader = TypedStreamReader::new(&bytes);
    assert_eq!(reader.parse(), Ok(vec![vec![OutputData::Empty]]));
}

#[test]
fn end_marker_is_skipped_between_entries() {
    let bytes = with_header(&[0x86, 0x84, 1, 0x2B, 1, b'x']);
    let mut reader = TypedStreamReader::new(&bytes);
    assert_eq!(
        reader.parse(),
        Ok(vec![vec![OutputData::Text("x".to_string())]])
    );
}

#[test]
fn utf8_bytes_are_decoded_not_copied() {
    // 0xC3 0xA9 is the two-byte UTF-8 encoding of one character.
    let bytes = [0xC3, 0xA9];
    let mut reader = TypedStreamReader::new(&bytes);
    let text = reader.read_exact_as_string(2);
    assert_eq!(text, Ok("\u{e9}".to_string()));
}

#[test]
fn cursor_reads_and_peeks() {
    let bytes = [10, 0x95];
    let mut reader = TypedStreamReader::new(&bytes);
    assert_eq!(reader.get_current_byte(), Ok(10));
    assert_eq!(reader.get_next_byte(), Ok(0x95));
    assert_eq!(reader.read_int(), Ok(10));
    assert_eq!(reader.get_next_byte(), Err(DecodeError::UnexpectedEndOfStream));
    assert_eq!(reader.read_pointer(), Ok(3));
    assert_eq!(reader.get_current_byte(), Err(DecodeError::UnexpectedEndOfStream));
    assert_eq!(reader.read_int(), Err(DecodeError::UnexpectedEndOfStream));
}

#[test]
fn exact_byte_reads_are_bounds_checked() {
    let bytes = [1, 2, 3];
    let mut reader = TypedStreamReader::new(&bytes);
    assert_eq!(reader.read_exact_bytes(2), Ok(&[1u8, 2u8][..]));
    assert_eq!(
        reader.read_exact_bytes(2),
        Err(DecodeError::UnexpectedEndOfStream)
    );
    assert_eq!(reader.read_exact_bytes(1), Ok(&[3u8][..]));
}

#[test]
fn type_codes_map_to_variants() {
    assert_eq!(Type::from_byte(&0x40), Type::Object);
    assert_eq!(Type::from_byte(&0x2B), Type::Utf8String);
    assert_eq!(Type::from_byte(&0x2A), Type::EmbeddedData);
    assert_eq!(Type::from_byte(&0x69), Type::UnsignedInt);
    assert_eq!(Type::from_byte(&0x49), Type::SignedInt);
    assert_eq!(Type::from_byte(&0x07), Type::Unknown(0x07));
    assert_eq!(
        Type::new_string("NSString".to_string()),
        Type::InlineName("NSString".to_string())
    );
}

#[test]
fn class_renders_name_and_version() {
    assert_eq!(Class::new("NSString".to_string(), 1).as_string(), "NSString v1");
    assert_eq!(Class::new("A".to_string(), 0).as_string(), "A v0");
    assert_eq!(Class::new("B".to_string(), 42).as_string(), "B v42");
    assert_eq!(Class::new("C".to_string(), 215).as_string(), "C v215");
}

#[test]
fn registration_appends_in_order() {
    let bytes: [u8; 0] = [];
    let mut reader = TypedStreamReader::new(&bytes);
    let first = reader.register_object(Archivable::Class(Class::new("A".to_string(), 1)));
    let second = reader.register_object(Archivable::Class(Class::new("B".to_string(), 2)));
    assert_eq!((first, second), (0, 1));
    assert_eq!(reader.object_table.len(), 2);
    match reader.resolve_object(0) {
        Ok(entry) => assert_eq!(*entry, Archivable::Class(Class::new("A".to_string(), 1))),
        Err(_) => panic!("index 0 must resolve"),
    }
    match reader.resolve_object(1) {
        Ok(entry) => assert_eq!(*entry, Archivable::Class(Class::new("B".to_string(), 2))),
        Err(_) => panic!("index 1 must resolve"),
    }
    assert_eq!(reader.resolve_object(2), Err(DecodeError::UnresolvedReference(2)));
    let types = reader.register_type(vec![Type::Utf8String]);
    assert_eq!(types, 0);
    assert_eq!(reader.types_table.len(), 1);
}
