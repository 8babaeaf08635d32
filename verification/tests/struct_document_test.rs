use rust_vector_engine::models::Document;

fn bits(v: &[f32]) -> Vec<u32> {
    v.iter().map(|x| x.to_bits()).collect()
}

#[test]
fn struct_document_test_test_document_creation() {
    let id = 101;
    let vector = bits(&[1.0, 2.0, 3.0]);

    let doc = Document::new(id, vector.clone());

    assert_eq!(doc.id, id);
    assert_eq!(doc.vector, vector);
}

#[test]
fn struct_document_test_test_document_serialization_with_prost() {
    let doc = Document::new(102, bits(&[0.5, 1.5, 2.5]));

    let mut buf = Vec::new();
    doc.encode(&mut buf);

    assert!(!buf.is_empty());
}

#[test]
fn struct_document_test_test_document_deserialization_with_prost() {
    let original_doc = Document::new(103, bits(&[10.0, 20.0]));
    let mut buf = Vec::new();
    original_doc.encode(&mut buf);

    let deserialized_doc = Document::decode(&buf[..]).unwrap();

    assert_eq!(deserialized_doc.id, 103);
    assert_eq!(deserialized_doc.vector, bits(&[10.0, 20.0]));
}

#[test]
fn struct_document_test_test_document_round_trip() {
    let original_doc = Document::new(104, bits(&[-1.0, -2.0]));

    let mut buf = Vec::new();
    original_doc.encode(&mut buf);
    let deserialized_doc = Document::decode(&buf[..]).unwrap();

    assert_eq!(original_doc, deserialized_doc);
}
