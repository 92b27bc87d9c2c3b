use rgdb::embedding_file::{decode_embeddings, encode_embeddings, EmbeddingMatrix};

#[test]
fn embeddings_roundtrip() {
    let values: Vec<u32> = [0.5f32, -1.0, 2.25, 0.0, 3.5, 7.0].iter().map(|v| v.to_bits()).collect();
    let m = EmbeddingMatrix { num_nodes: 2, dim: 3, values: values.clone() };
    let bytes = encode_embeddings(&m);
    assert_eq!(bytes.len(), 8 + 4 * 6);
    assert_eq!(&bytes[0..4], &2u32.to_le_bytes());
    assert_eq!(&bytes[4..8], &3u32.to_le_bytes());
    let back = decode_embeddings(&bytes).unwrap();
    assert_eq!((back.num_nodes, back.dim), (2, 3));
    assert_eq!(back.values, values);
}

#[test]
fn embeddings_reject_short_input() {
    let m = EmbeddingMatrix { num_nodes: 2, dim: 2, values: vec![1, 2, 3, 4] };
    let bytes = encode_embeddings(&m);
    let err = decode_embeddings(&bytes[..5]).unwrap_err();
    assert_eq!(err.kind(), std::io::ErrorKind::UnexpectedEof);
    let err = decode_embeddings(&bytes[..bytes.len() - 1]).unwrap_err();
    assert_eq!(err.kind(), std::io::ErrorKind::UnexpectedEof);
    let mut longer = bytes.clone();
    longer.extend_from_slice(&[9, 9, 9]);
    assert_eq!(decode_embeddings(&longer).unwrap().values, vec![1, 2, 3, 4]);
    let huge = [0xffu8, 0xff, 0xff, 0xff, 0xff, 0xff, 0xff, 0xff];
    assert!(decode_embeddings(&huge).is_err());
    let empty = [0u8, 0, 0, 0, 5, 0, 0, 0];
    assert_eq!(decode_embeddings(&empty).unwrap().values.len(), 0);
}
