use rle_archiver::bits::{BitReader, BitWriter};

#[test]
fn bit_writer_packs_msb_first_and_pads() {
    let mut w = BitWriter::new();
    w.write_bits(0b101, 3);
    w.write_bits(0xABC, 12);
    w.flush();
    // 101 1010 1011 1100 then one zero bit of padding
    assert_eq!(w.into_bytes(), vec![0b1011_0101, 0b0111_1000]);
}

#[test]
fn bit_writer_flush_on_whole_bytes_adds_nothing() {
    let mut w = BitWriter::new();
    w.write_bits(0xFF, 8);
    w.flush();
    assert_eq!(w.into_bytes(), vec![0xFF]);
}

#[test]
fn bit_reader_reads_back_and_stops_at_end() {
    let mut r = BitReader::new(vec![0b1011_0101, 0b0111_1000]);
    assert_eq!(r.read_bits(3), Some(0b101));
    assert_eq!(r.read_bits(12), Some(0xABC));
    assert_eq!(r.read_bits(12), None);
}

#[test]
fn bit_reader_twelve_bit_codes() {
    let mut r = BitReader::new(vec![0x04, 0x10, 0x42]);
    assert_eq!(r.read_bits(12), Some(65));
    assert_eq!(r.read_bits(12), Some(66));
    assert_eq!(r.read_bits(12), None);
}
