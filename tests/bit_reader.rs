use jxl::bit_reader::BitReader;
use jxl::error::Error;
use jxl::frame::{ceil_log2, read_hf_global_header, read_num_histograms, read_used_orders};
use jxl::frame::tree_size_limit;
use jxl::section::sections;

#[test]
fn read_little_endian_bits() {
    let data = [0b1010_1101u8, 0xff, 0x01];
    let mut br = BitReader::new(&data);
    assert_eq!(br.read(1), Ok(1));
    assert_eq!(br.read(3), Ok(0b110));
    assert_eq!(br.read(4), Ok(0b1010));
    assert_eq!(br.total_bits_read(), 8);
    assert_eq!(br.read(9), Ok(0x1ff));
    assert_eq!(br.read(8), Err(Error::OutOfBounds));
    assert_eq!(br.total_bits_read(), 17);
    assert_eq!(br.read(7), Ok(0));
}

#[test]
fn read_sixty_four_bits() {
    let data = [0x01u8, 0x23, 0x45, 0x67, 0x89, 0xab, 0xcd, 0xef];
    let mut br = BitReader::new(&data);
    assert_eq!(br.read(64), Ok(0xefcd_ab89_6745_2301));
    assert_eq!(br.read(0), Ok(0));
    assert_eq!(br.read(1), Err(Error::OutOfBounds));
}

#[test]
fn byte_boundary_padding() {
    let data = [0b0000_0011u8, 0x00];
    let mut br = BitReader::new(&data);
    assert_eq!(br.read(2), Ok(3));
    assert_eq!(br.jump_to_byte_boundary(), Ok(()));
    assert_eq!(br.total_bits_read(), 8);
    assert_eq!(br.jump_to_byte_boundary(), Ok(()));
    assert_eq!(br.total_bits_read(), 8);

    let data = [0b1000_0001u8];
    let mut br = BitReader::new(&data);
    assert_eq!(br.read(1), Ok(1));
    assert_eq!(br.jump_to_byte_boundary(), Err(Error::NonZeroPadding));
}

#[test]
fn split_sections_in_storage_order() {
    let data = [1u8, 2, 3, 4, 5, 6];
    let mut br = BitReader::new(&data);
    assert_eq!(br.read(8), Ok(1));
    let entries = vec![1u32, 3, 1];
    let mut parts = sections(&mut br, &entries, &Some(vec![1, 0, 2])).unwrap();
    assert_eq!(parts.len(), 3);
    assert_eq!(br.total_bits_read(), 48);
    assert_eq!(parts[0].read(24), Ok(0x04_03_02));
    assert_eq!(parts[1].read(8), Ok(5));
    assert_eq!(parts[2].read(8), Ok(6));
    assert_eq!(parts[2].read(1), Err(Error::OutOfBounds));
}

#[test]
fn split_sections_in_toc_order() {
    let data = [1u8, 2, 3, 4, 5, 6, 7, 8, 9, 10];
    let mut br = BitReader::new(&data);
    let entries = vec![3u32, 5, 2];
    let mut parts = sections(&mut br, &entries, &None).unwrap();
    assert_eq!(br.total_bits_read(), 80);
    assert_eq!(parts[0].read(24), Ok(0x03_02_01));
    assert_eq!(parts[1].read(8), Ok(4));
    assert_eq!(parts[2].read(16), Ok(0x0a_09));
    assert_eq!(parts[2].read(1), Err(Error::OutOfBounds));
}

#[test]
fn split_sections_too_long() {
    let data = [1u8, 2, 3];
    let mut br = BitReader::new(&data);
    let entries = vec![2u32, 2];
    assert!(matches!(sections(&mut br, &entries, &None), Err(Error::OutOfBounds)));
    let mut br = BitReader::new(&data);
    assert!(matches!(sections(&mut br, &entries, &Some(vec![1, 0])), Err(Error::OutOfBounds)));
}

#[test]
fn ceil_log2_values() {
    assert_eq!(ceil_log2(0), 0);
    assert_eq!(ceil_log2(1), 0);
    assert_eq!(ceil_log2(2), 1);
    assert_eq!(ceil_log2(3), 2);
    assert_eq!(ceil_log2(4), 2);
    assert_eq!(ceil_log2(5), 3);
    assert_eq!(ceil_log2(usize::MAX), 64);
}

#[test]
fn used_orders_selectors() {
    let data = [0b00u8];
    assert_eq!(read_used_orders(&mut BitReader::new(&data)), Ok(0x5f));
    let data = [0b01u8];
    assert_eq!(read_used_orders(&mut BitReader::new(&data)), Ok(0x13));
    let data = [0b10u8];
    assert_eq!(read_used_orders(&mut BitReader::new(&data)), Ok(0));
    // Selector 3, then the 13-bit mask 0x1abc.
    let v: u32 = 3 | (0x1abc << 2);
    let data = v.to_le_bytes();
    let mut br = BitReader::new(&data);
    assert_eq!(read_used_orders(&mut br), Ok(0x1abc));
    assert_eq!(br.total_bits_read(), 15);
    let data = [0b11u8];
    assert_eq!(read_used_orders(&mut BitReader::new(&data)), Err(Error::OutOfBounds));
}

#[test]
fn histogram_count() {
    // Five groups: three bits, here 0b101.
    let data = [0b0000_0101u8];
    assert_eq!(read_num_histograms(&mut BitReader::new(&data), 5), Ok(6));
    // One group: no bits at all.
    let data: [u8; 0] = [];
    assert_eq!(read_num_histograms(&mut BitReader::new(&data), 1), Ok(1));
}

#[test]
fn hf_global_header() {
    let data = [0b0000_1011u8];
    let mut br = BitReader::new(&data);
    assert_eq!(read_hf_global_header(&mut br, 8), Ok(6));
    assert_eq!(br.total_bits_read(), 4);
    let data = [0b0000_1010u8];
    assert_eq!(read_hf_global_header(&mut BitReader::new(&data), 8), Err(Error::NotImplemented));
}

#[test]
fn tree_limit() {
    assert_eq!(tree_size_limit(256, 256, 3), 1024 + 256 * 256 * 3 / 16);
    assert_eq!(tree_size_limit(100_000, 100_000, 4), 1 << 22);
    assert_eq!(tree_size_limit(u32::MAX, u32::MAX, usize::MAX), 1 << 22);
}
