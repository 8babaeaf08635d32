use prost::encoding::encode_key;
use prost::encoding::encode_varint;
use prost::encoding::WireType;
use rust_vector_engine::models::document::put_record;
use rust_vector_engine::models::EngineState;
use rust_vector_engine::models::VectorEngine;
use rust_vector_engine::wire::put_varint;
use rust_vector_engine::wire::put_words;
use rust_vector_engine::wire::take_field;
use rust_vector_engine::wire::take_varint;
use rust_vector_engine::wire::take_word;
use rust_vector_engine::wire::take_words;
use rust_vector_engine::wire::Token;

fn prost_record(id: u64, vector: &[f32]) -> Vec<u8> {
    let mut doc = Vec::new();
    if id != 0 {
        prost::encoding::uint64::encode(1, &id, &mut doc);
    }
    prost::encoding::float::encode_packed(2, vector, &mut doc);
    let mut buf = Vec::new();
    encode_key(2, WireType::LengthDelimited, &mut buf);
    encode_varint(doc.len() as u64, &mut buf);
    buf.extend_from_slice(&doc);
    buf
}

#[test]
fn test_varint_exact_bytes() {
    let mut buf = Vec::new();
    put_varint(&mut buf, 0);
    put_varint(&mut buf, 127);
    put_varint(&mut buf, 128);
    put_varint(&mut buf, 300);
    assert_eq!(buf, vec![0x00, 0x7f, 0x80, 0x01, 0xac, 0x02]);
}

#[test]
fn test_varint_agrees_with_prost() {
    let values = [0u64, 1, 127, 128, 16_383, 16_384, 1 << 32, (1 << 63) - 1, 1 << 63, u64::MAX];
    for v in values {
        let mut ours = Vec::new();
        put_varint(&mut ours, v);
        let mut theirs = Vec::new();
        encode_varint(v, &mut theirs);
        assert_eq!(ours, theirs);
        assert_eq!(take_varint(&ours, 0, ours.len()), Some((v, ours.len())));
        let mut rest = &ours[..];
        assert_eq!(prost::encoding::decode_varint(&mut rest).unwrap(), v);
    }
}

#[test]
fn test_take_varint_edges() {
    assert_eq!(take_varint(&[], 0, 0), None);
    assert_eq!(take_varint(&[0x80], 0, 1), None);
    assert_eq!(take_varint(&[0x80, 0x00], 0, 2), Some((0, 2)));
    assert_eq!(take_varint(&[0x05, 0x06], 1, 2), Some((6, 1)));
    assert_eq!(take_varint(&[0x05, 0x06], 1, 1), None);
    let eleven = [0x80u8, 0x80, 0x80, 0x80, 0x80, 0x80, 0x80, 0x80, 0x80, 0x80, 0x00];
    assert_eq!(take_varint(&eleven, 0, eleven.len()), None);
}

#[test]
fn test_words_are_little_endian() {
    let mut buf = Vec::new();
    put_words(&mut buf, &vec![0x0403_0201, 1.0f32.to_bits()]);
    assert_eq!(buf, vec![0x01, 0x02, 0x03, 0x04, 0x00, 0x00, 0x80, 0x3f]);
    assert_eq!(take_word(&buf, 0), 0x0403_0201);
    assert_eq!(take_word(&buf, 4), 0x3f80_0000);
    let mut words = vec![9];
    take_words(&mut words, &buf, 0, 8);
    assert_eq!(words, vec![9, 0x0403_0201, 0x3f80_0000]);
}

#[test]
fn test_take_field_by_wire_type() {
    let bytes = [0x08, 0x96, 0x01];
    let t = take_field(&bytes, 0, 3, 100).unwrap();
    assert_eq!(t.number, 1);
    assert_eq!(t.next, 3);
    assert!(matches!(t.token, Token::Varint(150)));

    let bytes = [0x1a, 0x02, 0xaa, 0xbb, 0xcc];
    let t = take_field(&bytes, 0, 5, 100).unwrap();
    assert_eq!(t.number, 3);
    assert_eq!(t.next, 4);
    assert!(matches!(t.token, Token::Bytes { start: 2, stop: 4 }));
    assert!(take_field(&bytes, 0, 3, 100).is_none());

    let bytes = [0x15, 0x00, 0x00, 0x80, 0x3f];
    let t = take_field(&bytes, 0, 5, 100).unwrap();
    assert_eq!(t.number, 2);
    assert!(matches!(t.token, Token::Fixed32(0x3f80_0000)));

    let bytes = [0x09, 1, 2, 3, 4, 5, 6, 7, 8];
    let t = take_field(&bytes, 0, 9, 100).unwrap();
    assert_eq!((t.number, t.next), (1, 9));
    assert!(matches!(t.token, Token::Fixed64));
    assert!(take_field(&bytes, 0, 8, 100).is_none());
}

#[test]
fn test_checkpoint_agrees_with_prost() {
    let mut engine = VectorEngine::new(2);
    engine.add_document(300, vec![1.0f32.to_bits(), (-2.5f32).to_bits()]).unwrap();
    let bytes = engine.save_to_bytes().unwrap();

    let mut expected = Vec::new();
    prost::encoding::uint32::encode(1, &1u32, &mut expected);
    expected.extend_from_slice(&prost_record(300, &[1.0, -2.5]));
    assert_eq!(bytes, expected);
}

#[test]
fn test_empty_checkpoint_exact_bytes() {
    let engine = VectorEngine::new(8);
    assert_eq!(engine.save_to_bytes().unwrap(), vec![0x08, 0x01]);
}

#[test]
fn test_record_exact_bytes() {
    let mut buf = Vec::new();
    put_record(&mut buf, 1, &vec![0x3f80_0000]);
    assert_eq!(buf, vec![0x12, 0x08, 0x08, 0x01, 0x12, 0x04, 0x00, 0x00, 0x80, 0x3f]);
    assert_eq!(buf, prost_record(1, &[1.0]));
}

#[test]
fn test_state_decode_reads_prost_bytes() {
    let mut bytes = Vec::new();
    bytes.extend_from_slice(&prost_record(5, &[0.25, 0.5]));
    prost::encoding::uint32::encode(1, &1u32, &mut bytes);
    prost::encoding::string::encode(15, &"note".to_string(), &mut bytes);
    bytes.extend_from_slice(&prost_record(0, &[]));
    let state = EngineState::decode(&bytes).unwrap();
    assert_eq!(state.format_version, 1);
    assert_eq!(state.documents.len(), 2);
    assert_eq!(state.documents[0].id, 5);
    assert_eq!(state.documents[0].vector, vec![0.25f32.to_bits(), 0.5f32.to_bits()]);
    assert_eq!(state.documents[1].id, 0);
    assert!(state.documents[1].vector.is_empty());
}

#[test]
fn test_state_version_is_truncated_to_32_bits() {
    let mut bytes = Vec::new();
    prost::encoding::uint64::encode(1, &((1u64 << 32) + 1), &mut bytes);
    let state = EngineState::decode(&bytes).unwrap();
    assert_eq!(state.format_version, 1);
}

#[test]
fn test_state_decode_rejects_wrong_wire_types() {
    assert!(EngineState::decode(&[0x0d, 1, 0, 0, 0]).is_none());
    assert!(EngineState::decode(&[0x10, 0x01]).is_none());
    assert!(EngineState::decode(&[0x12, 0x02, 0x08]).is_none());
    assert!(EngineState::decode(&[0x12, 0x02, 0x08, 0x80]).is_none());
}

#[test]
fn test_take_field_measures_groups() {
    let bytes = [0x3b, 0x08, 0x05, 0x3c, 0xff];
    let t = take_field(&bytes, 0, 5, 100).unwrap();
    assert_eq!((t.number, t.next), (7, 4));
    assert!(matches!(t.token, Token::Group));
    assert!(take_field(&bytes, 0, 5, 0).is_none());
    assert!(take_field(&bytes, 0, 5, 1).is_none());
    assert!(take_field(&bytes, 0, 5, 2).is_some());
    assert!(take_field(&bytes, 0, 3, 100).is_none());
    let empty_group = [0x3b, 0x3c];
    assert!(take_field(&empty_group, 0, 2, 1).is_some());
}
