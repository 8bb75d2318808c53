use jxl::container::{BitstreamKind, ContainerParser};
use jxl::error::Error;

const CONTAINER_SIG: [u8; 12] = [0, 0, 0, 0x0c, b'J', b'X', b'L', b' ', 0x0d, 0x0a, 0x87, 0x0a];

fn boxed(box_type: &[u8; 4], payload: &[u8]) -> Vec<u8> {
    let size = (payload.len() + 8) as u32;
    let mut out = size.to_be_bytes().to_vec();
    out.extend_from_slice(box_type);
    out.extend_from_slice(payload);
    out
}

fn jxlp(index: u32, payload: &[u8]) -> Vec<u8> {
    let mut data = index.to_be_bytes().to_vec();
    data.extend_from_slice(payload);
    boxed(b"jxlp", &data)
}

fn container(boxes: &[Vec<u8>]) -> Vec<u8> {
    let mut out = CONTAINER_SIG.to_vec();
    for b in boxes {
        out.extend_from_slice(b);
    }
    out
}

fn parse_whole(bytes: &[u8]) -> Result<Vec<u8>, Error> {
    let mut parser = ContainerParser::new();
    parser.feed_bytes(bytes)?;
    parser.finish();
    Ok(parser.take_bytes())
}

#[test]
fn signature_bare_codestream() {
    let mut parser = ContainerParser::new();
    parser.feed_bytes(&[0xff, 0x0a, 0x00]).unwrap();
    assert_eq!(parser.kind(), BitstreamKind::BareCodestream);
    assert_eq!(parser.take_bytes(), vec![0xff, 0x0a, 0x00]);
}

#[test]
fn signature_container() {
    let mut parser = ContainerParser::new();
    parser.feed_bytes(&CONTAINER_SIG).unwrap();
    assert_eq!(parser.kind(), BitstreamKind::Container);
    assert!(parser.take_bytes().is_empty());
}

#[test]
fn signature_invalid() {
    let mut parser = ContainerParser::new();
    parser.feed_bytes(&[0xff, 0x0b]).unwrap();
    assert_eq!(parser.kind(), BitstreamKind::Invalid);
}

#[test]
fn signature_needs_more_data() {
    let mut parser = ContainerParser::new();
    assert_eq!(parser.kind(), BitstreamKind::Unknown);
    parser.feed_bytes(&CONTAINER_SIG[..7]).unwrap();
    assert_eq!(parser.kind(), BitstreamKind::Unknown);
    parser.feed_bytes(&CONTAINER_SIG[7..11]).unwrap();
    assert_eq!(parser.kind(), BitstreamKind::Unknown);
    parser.feed_bytes(&CONTAINER_SIG[11..]).unwrap();
    assert_eq!(parser.kind(), BitstreamKind::Container);
}

#[test]
fn signature_split_in_two_feeds() {
    let mut parser = ContainerParser::new();
    parser.feed_bytes(&[0xff]).unwrap();
    assert_eq!(parser.kind(), BitstreamKind::Unknown);
    parser.feed_bytes(&[0x0a, 0x01]).unwrap();
    assert_eq!(parser.kind(), BitstreamKind::BareCodestream);
    assert_eq!(parser.take_bytes(), vec![0xff, 0x0a, 0x01]);
}

#[test]
fn jxlp_parts_in_order() {
    let bytes = container(&[jxlp(0, b"A"), jxlp(0x8000_0001, b"B")]);
    assert_eq!(parse_whole(&bytes).unwrap(), b"AB".to_vec());
}

#[test]
fn jxlp_parts_out_of_order() {
    let bytes = container(&[jxlp(1, b"A"), jxlp(0x8000_0000, b"B")]);
    assert_eq!(parse_whole(&bytes), Err(Error::InvalidBox));
}

#[test]
fn duplicate_jxlc() {
    let bytes = container(&[boxed(b"jxlc", b"A"), boxed(b"jxlc", b"B")]);
    assert_eq!(parse_whole(&bytes), Err(Error::InvalidBox));
}

#[test]
fn jxlc_after_jxlp() {
    let bytes = container(&[jxlp(0, b"A"), boxed(b"jxlc", b"B")]);
    assert_eq!(parse_whole(&bytes), Err(Error::InvalidBox));
}

#[test]
fn jxlp_after_jxlc() {
    let bytes = container(&[boxed(b"jxlc", b"A"), jxlp(0, b"B")]);
    assert_eq!(parse_whole(&bytes), Err(Error::InvalidBox));
}

#[test]
fn jxlp_after_final() {
    let bytes = container(&[jxlp(0x8000_0000, b"A"), jxlp(1, b"B")]);
    assert_eq!(parse_whole(&bytes), Err(Error::InvalidBox));
}

#[test]
fn jxlp_too_small() {
    let bytes = container(&[boxed(b"jxlp", &[0, 0, 0])]);
    assert_eq!(parse_whole(&bytes), Err(Error::InvalidBox));
}

#[test]
fn box_size_below_header() {
    let bytes = container(&[vec![0, 0, 0, 4, b'j', b'x', b'l', b'c']]);
    assert_eq!(parse_whole(&bytes), Err(Error::InvalidBox));
}

#[test]
fn jxlp_equals_jxlc() {
    let payload: Vec<u8> = (0u8..40).collect();
    let single = container(&[boxed(b"jxlc", &payload)]);
    let parts = container(&[
        jxlp(0, &payload[..10]),
        jxlp(1, &payload[10..11]),
        jxlp(2, &[]),
        jxlp(0x8000_0003, &payload[11..]),
    ]);
    assert_eq!(parse_whole(&single).unwrap(), payload);
    assert_eq!(parse_whole(&parts).unwrap(), payload);
}

#[test]
fn chunking_does_not_matter() {
    let payload: Vec<u8> = (0u8..64).map(|x| x.wrapping_mul(37)).collect();
    let bytes = container(&[
        boxed(b"Exif", b"metadata"),
        jxlp(0, &payload[..20]),
        boxed(b"xml ", b"<x/>"),
        jxlp(0x8000_0001, &payload[20..]),
    ]);
    let whole = parse_whole(&bytes).unwrap();
    assert_eq!(whole, payload);
    for chunk in 1..bytes.len() {
        let mut parser = ContainerParser::new();
        let mut got = Vec::new();
        for piece in bytes.chunks(chunk) {
            parser.feed_bytes(piece).unwrap();
            got.extend(parser.take_bytes());
        }
        parser.finish();
        got.extend(parser.take_bytes());
        assert_eq!(got, whole, "chunk size {chunk}");
        let aux = parser.aux_boxes();
        assert_eq!(aux.len(), 2);
        assert_eq!(aux[0], (u32::from_be_bytes(*b"Exif"), b"metadata".to_vec()));
        assert_eq!(aux[1], (u32::from_be_bytes(*b"xml "), b"<x/>".to_vec()));
    }
}

#[test]
fn unfinished_aux_box_completed_by_finish() {
    let mut aux = vec![0, 0, 0, 0, b'E', b'x', b'i', b'f'];
    aux.extend_from_slice(b"partial");
    let bytes = container(&[boxed(b"jxlc", b"cs"), aux]);
    let mut parser = ContainerParser::new();
    parser.feed_bytes(&bytes).unwrap();
    assert!(parser.aux_boxes().is_empty());
    parser.finish();
    assert_eq!(parser.kind(), BitstreamKind::Container);
    assert_eq!(parser.aux_boxes().len(), 1);
    assert_eq!(parser.aux_boxes()[0].1, b"partial".to_vec());
    assert_eq!(parser.take_bytes(), b"cs".to_vec());
}

#[test]
fn extended_box_size() {
    let mut header = vec![0, 0, 0, 1, b'j', b'x', b'l', b'c'];
    header.extend_from_slice(&(16u64 + 3).to_be_bytes());
    header.extend_from_slice(b"xyz");
    header.extend_from_slice(&boxed(b"free", b"tail"));
    let bytes = container(&[header]);
    assert_eq!(parse_whole(&bytes).unwrap(), b"xyz".to_vec());
}

#[test]
fn last_box_runs_to_end() {
    let mut last = vec![0, 0, 0, 0, b'j', b'x', b'l', b'c'];
    last.extend_from_slice(b"rest of the stream");
    let bytes = container(&[boxed(b"Exif", b"meta"), last]);
    let mut parser = ContainerParser::new();
    parser.feed_bytes(&bytes[..25]).unwrap();
    let mut got = parser.take_bytes();
    parser.feed_bytes(&bytes[25..]).unwrap();
    got.extend(parser.take_bytes());
    assert_eq!(got, b"rest of the stream".to_vec());
    assert_eq!(parser.kind(), BitstreamKind::Container);
}

#[test]
fn finish_stops_the_parser() {
    let mut parser = ContainerParser::new();
    parser.feed_bytes(&[0xff, 0x0a]).unwrap();
    parser.finish();
    assert_eq!(parser.kind(), BitstreamKind::BareCodestream);
    parser.feed_bytes(&[1, 2, 3]).unwrap();
    assert_eq!(parser.take_bytes(), vec![0xff, 0x0a]);
}

#[test]
fn bad_first_jxlp_index_in_one_feed() {
    let bytes = container(&[jxlp(1, &[0xaa]), jxlp(0x8000_0000, &[0xbb])]);
    let mut parser = ContainerParser::new();
    assert_eq!(parser.feed_bytes(&bytes), Err(Error::InvalidBox));
}

#[test]
fn kind_stays_once_decided() {
    let bytes = container(&[boxed(b"jxlc", b"abc"), boxed(b"free", b"")]);
    let mut parser = ContainerParser::new();
    let mut seen = Vec::new();
    for b in &bytes {
        let before = parser.take_bytes();
        seen.extend(before);
        parser.feed_bytes(&[*b]).unwrap();
        if parser.kind() != BitstreamKind::Unknown {
            assert_eq!(parser.kind(), BitstreamKind::Container);
        }
    }
    seen.extend(parser.take_bytes());
    assert_eq!(seen, b"abc".to_vec());
    assert!(parser.feed_bytes(&[]).is_ok());
}
