use svgen::parsers::{has_png_signature, parse_chunks, parse_ihdr, parse_plte, parse_trns};
use svgen::utils::{generate_id, rgba_to_hex};
use svgen::vec2::{IVec2, USizeVec2};

#[test]
fn ids_count_in_base_52_letters() {
    assert_eq!(generate_id(0), "a");
    assert_eq!(generate_id(25), "z");
    assert_eq!(generate_id(26), "A");
    assert_eq!(generate_id(51), "Z");
    assert_eq!(generate_id(52), "ba");
    assert_eq!(generate_id(53), "bb");
    assert_eq!(generate_id(52 * 52), "baa");
}

#[test]
fn colour_as_hex() {
    assert_eq!(rgba_to_hex(255, 0, 16, 171), "#FF0010AB");
    assert_eq!(rgba_to_hex(0, 0, 0, 0), "#00000000");
}

#[test]
fn vector_constructors() {
    assert_eq!(IVec2::new(3, -4), IVec2 { x: 3, y: -4 });
    assert_eq!(IVec2::splat(7), IVec2 { x: 7, y: 7 });
    assert_eq!(USizeVec2::new(1, 2), USizeVec2 { x: 1, y: 2 });
    assert_eq!(USizeVec2::splat(5), USizeVec2 { x: 5, y: 5 });
}

fn chunk(kind: &[u8; 4], data: &[u8]) -> Vec<u8> {
    let mut out = Vec::new();
    out.extend_from_slice(&(data.len() as u32).to_be_bytes());
    out.extend_from_slice(kind);
    out.extend_from_slice(data);
    out.extend_from_slice(&[0xde, 0xad, 0xbe, 0xef]);
    out
}

fn sample_png() -> Vec<u8> {
    let mut buf = vec![0x89, b'P', b'N', b'G', 0x0d, 0x0a, 0x1a, 0x0a];
    buf.extend(chunk(b"IHDR", &[0, 0, 1, 2, 0, 0, 0, 3, 8, 3, 0, 0, 1]));
    buf.extend(chunk(b"PLTE", &[1, 2, 3, 4, 5, 6, 7]));
    buf.extend(chunk(b"tRNS", &[9, 8]));
    buf.extend(chunk(b"IEND", &[]));
    buf
}

#[test]
fn chunks_are_split_in_order() {
    let chunks = parse_chunks(&sample_png()).unwrap();
    assert_eq!(chunks.len(), 4);
    assert_eq!(&chunks[0].chunk_type, b"IHDR");
    assert_eq!(chunks[0].length, 13);
    assert_eq!(chunks[0].crc, 0xdeadbeef);
    assert_eq!(&chunks[3].chunk_type, b"IEND");
    assert!(chunks[3].data.is_empty());
}

#[test]
fn truncated_stream_is_rejected() {
    let mut buf = sample_png();
    buf.truncate(buf.len() - 2);
    assert!(parse_chunks(&buf).is_none());
    assert_eq!(parse_chunks(&buf[..8]).unwrap().len(), 0);
}

#[test]
fn header_fields() {
    let chunks = parse_chunks(&sample_png()).unwrap();
    let ihdr = parse_ihdr(&chunks[0].data);
    assert_eq!(ihdr.width, 258);
    assert_eq!(ihdr.height, 3);
    assert_eq!(ihdr.bit_depth, 8);
    assert_eq!(ihdr.color_type, 3);
    assert_eq!(ihdr.interlace_method, 1);
}

#[test]
fn palette_and_transparency() {
    let chunks = parse_chunks(&sample_png()).unwrap();
    assert_eq!(parse_plte(&chunks), vec![(1, 2, 3), (4, 5, 6)]);
    assert_eq!(parse_trns(&chunks), vec![9, 8]);
    assert!(parse_plte(&chunks[..1]).is_empty());
    assert!(parse_trns(&chunks[..1]).is_empty());
}

#[test]
fn png_signature_is_recognised() {
    assert!(has_png_signature(&sample_png()));
    assert!(!has_png_signature(&sample_png()[1..]));
    assert!(!has_png_signature(&[0x89, b'P', b'N']));
}
