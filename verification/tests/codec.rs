use rustleak::codec::decode_fragment;
use rustleak::codec::encode_chunk;
use rustleak::codec::max_chunk_bytes;
use rustleak::codec::split_into_chunks;

#[test]
fn encode_known_vectors() {
    assert_eq!(encode_chunk(&b"".to_vec()), b"".to_vec());
    assert_eq!(encode_chunk(&b"f".to_vec()), b"MY".to_vec());
    assert_eq!(encode_chunk(&b"fo".to_vec()), b"MZXQ".to_vec());
    assert_eq!(encode_chunk(&b"foo".to_vec()), b"MZXW6".to_vec());
    assert_eq!(encode_chunk(&b"foob".to_vec()), b"MZXW6YQ".to_vec());
    assert_eq!(encode_chunk(&b"fooba".to_vec()), b"MZXW6YTB".to_vec());
    assert_eq!(encode_chunk(&b"foobar".to_vec()), b"MZXW6YTBOI".to_vec());
}

#[test]
fn encode_is_total_over_byte_values() {
    let all: Vec<u8> = (0..=255).collect();
    let encoded = encode_chunk(&all);
    for c in &encoded {
        assert!((b'A'..=b'Z').contains(c) || (b'2'..=b'7').contains(c));
    }
    assert_eq!(decode_fragment(&encoded), Some(all));
}

#[test]
fn decode_accepts_either_case() {
    assert_eq!(decode_fragment(&b"MZXW6YTBOI".to_vec()), Some(b"foobar".to_vec()));
    assert_eq!(decode_fragment(&b"mzxw6ytboi".to_vec()), Some(b"foobar".to_vec()));
    assert_eq!(decode_fragment(&b"MzXw6yTbOi".to_vec()), Some(b"foobar".to_vec()));
}

#[test]
fn decode_rejects_bytes_outside_the_alphabet() {
    assert_eq!(decode_fragment(&b"MZ0W".to_vec()), None);
    assert_eq!(decode_fragment(&b"MZ1W".to_vec()), None);
    assert_eq!(decode_fragment(&b"M8".to_vec()), None);
    assert_eq!(decode_fragment(&b"AB.D".to_vec()), None);
    assert_eq!(decode_fragment(&vec![0u8]), None);
}

#[test]
fn roundtrip_many_lengths() {
    for len in 0..100usize {
        let data: Vec<u8> = (0..len).map(|i| (i * 37 + 11) as u8).collect();
        let encoded = encode_chunk(&data);
        assert_eq!(decode_fragment(&encoded), Some(data));
    }
}

#[test]
fn chunks_concatenate_to_the_payload() {
    let data: Vec<u8> = (0..50u8).collect();
    let chunks = split_into_chunks(&data, 7);
    assert_eq!(chunks.len(), 8);
    let mut glued: Vec<u8> = Vec::new();
    for c in &chunks {
        assert!(c.len() <= 7);
        glued.extend_from_slice(c);
    }
    assert_eq!(glued, data);
}

#[test]
fn chunking_is_deterministic_and_ordered() {
    let data = b"HELLO-WORLD-12345".to_vec();
    let a = split_into_chunks(&data, 6);
    let b = split_into_chunks(&data, 6);
    assert_eq!(a, b);
    assert_eq!(a.len(), 3);
    assert_eq!(a[0], b"HELLO-".to_vec());
    assert_eq!(a[1], b"WORLD-".to_vec());
    assert_eq!(a[2], b"12345".to_vec());
}

#[test]
fn empty_payload_yields_no_chunks() {
    let chunks = split_into_chunks(&Vec::new(), 39);
    assert_eq!(chunks.len(), 0);
}

#[test]
fn default_chunk_width_fills_one_label() {
    let limit = max_chunk_bytes();
    assert_eq!(limit, 39);
    let data: Vec<u8> = (0..39u8).collect();
    let encoded = encode_chunk(&data);
    assert_eq!(encoded.len(), 63);
}
