use dns::buffer::{DnsBuffer, DnsError};

fn load(bytes: &[u8]) -> DnsBuffer {
    let mut buf = DnsBuffer::new();
    buf.buf[..bytes.len()].copy_from_slice(bytes);
    buf
}

/// A query for the A records of google.com, id 0x7370.
fn google_query() -> Vec<u8> {
    let mut v = vec![0x73, 0x70, 0x01, 0x00, 0x00, 0x01, 0x00, 0x00, 0x00, 0x00, 0x00, 0x00];
    v.extend_from_slice(&[6, b'g', b'o', b'o', b'g', b'l', b'e', 3, b'c', b'o', b'm', 0]);
    v.extend_from_slice(&[0x00, 0x01, 0x00, 0x01]);
    v
}

#[test]
fn buffer_test_bit_shift() {
    assert_eq!(8 & 0xFF, 8 & 0x0F);
    assert_eq!(17, 0x11);
    assert_ne!(17 & 0xFF, 17 & 0x0F);
}

#[test]
fn test_read() {
    let mut buf = load(&google_query());

    assert_eq!(buf.get(0).unwrap(), 115);

    // Move to google.com
    let mut output_str = String::new();
    buf.seek(12).unwrap();
    buf.read_label(&mut output_str).unwrap();
    assert_eq!(output_str, "google.com");
}

#[test]
fn test_write() {
    let mut buf = DnsBuffer::new();
    buf.write(1).unwrap();
    assert_eq!(buf.get(0).unwrap(), 1);
    buf.write_u16(2).unwrap();
    assert_eq!(buf.get_u16(1).unwrap(), 2);
    buf.write_u16(3).unwrap();
    assert_eq!(buf.get_u16(3).unwrap(), 3);
    buf.write_u32(4).unwrap();
    assert_eq!(buf.get_u32(5).unwrap(), 4);
    buf.write_label("google.com").unwrap();
    assert_eq!(buf.get_label(9).unwrap(), "google.com");
}

#[test]
fn new_buffer_is_zeroed() {
    let buf = DnsBuffer::new();
    assert_eq!(buf.pos, 0);
    assert!(buf.buf.iter().all(|b| *b == 0));
}

#[test]
fn bounds_are_enforced() {
    let mut buf = DnsBuffer::new();
    assert_eq!(buf.get(512), Err(DnsError::OutOfBounds));
    assert_eq!(buf.set(512, 7), Err(DnsError::OutOfBounds));
    assert_eq!(buf.seek(512), Err(DnsError::OutOfBounds));
    assert_eq!(buf.pos, 0);
    assert_eq!(buf.get(511), Ok(0));
    assert_eq!(buf.set(511, 7), Ok(()));
    assert_eq!(buf.get(511), Ok(7));
    assert_eq!(buf.seek(511), Ok(()));
    assert_eq!(buf.pos, 511);
}

#[test]
fn big_endian_values() {
    let mut buf = DnsBuffer::new();
    buf.write_u16(0x1234).unwrap();
    buf.write_u32(0xDEADBEEF).unwrap();
    assert_eq!(&buf.buf[..6], &[0x12, 0x34, 0xDE, 0xAD, 0xBE, 0xEF]);
    assert_eq!(buf.pos, 6);
    assert_eq!(buf.get_u16(0), Ok(0x1234));
    assert_eq!(buf.get_u32(2), Ok(0xDEADBEEF));
    buf.set_u16(10, 0xABCD).unwrap();
    assert_eq!(&buf.buf[10..12], &[0xAB, 0xCD]);
    buf.seek(0).unwrap();
    assert_eq!(buf.read_u16(), Ok(0x1234));
    assert_eq!(buf.read_u32(), Ok(0xDEADBEEF));
    assert_eq!(buf.read(), Ok(0));
    assert_eq!(buf.pos, 7);
}

#[test]
fn multi_byte_access_at_the_end() {
    let mut buf = DnsBuffer::new();
    assert_eq!(buf.get_u16(510), Ok(0));
    assert_eq!(buf.get_u16(511), Err(DnsError::OutOfBounds));
    assert_eq!(buf.get_u32(508), Ok(0));
    assert_eq!(buf.get_u32(509), Err(DnsError::OutOfBounds));
    assert_eq!(buf.set_u16(511, 0xFFFF), Err(DnsError::OutOfBounds));
    // the first byte fits and is stored, the second does not
    assert_eq!(buf.buf[511], 0xFF);

    buf.pos = 511;
    assert_eq!(buf.read_u16(), Err(DnsError::OutOfBounds));
    assert_eq!(buf.pos, 511);
    assert_eq!(buf.read(), Ok(0xFF));
    assert_eq!(buf.pos, 512);
    assert_eq!(buf.read(), Err(DnsError::OutOfBounds));
    assert_eq!(buf.pos, 512);
}

#[test]
fn writing_past_the_end_stops_there() {
    let mut buf = DnsBuffer::new();
    buf.pos = 510;
    assert_eq!(buf.write_u32(0x01020304), Err(DnsError::OutOfBounds));
    assert_eq!(&buf.buf[510..], &[0x01, 0x02]);
    assert_eq!(buf.pos, 512);
    assert_eq!(buf.write(9), Err(DnsError::OutOfBounds));
    assert_eq!(buf.pos, 512);
}

#[test]
fn get_range_reads_without_moving() {
    let buf = load(&google_query());
    assert_eq!(buf.get_range(13, 6).unwrap(), b"google");
    assert_eq!(buf.get_range(500, 12).unwrap().len(), 12);
    assert_eq!(buf.get_range(500, 13), Err(DnsError::OutOfBounds));
    assert_eq!(buf.pos, 0);
}

#[test]
fn label_round_trip_moves_cursor_past_name() {
    let mut buf = DnsBuffer::new();
    buf.pos = 40;
    buf.write_label("google.com").unwrap();
    assert_eq!(buf.pos, 52);
    assert_eq!(
        &buf.buf[40..52],
        &[6, b'g', b'o', b'o', b'g', b'l', b'e', 3, b'c', b'o', b'm', 0]
    );
    buf.seek(40).unwrap();
    let mut name = String::new();
    buf.read_label(&mut name).unwrap();
    assert_eq!(name, "google.com");
    assert_eq!(buf.pos, 40 + 12);
}

#[test]
fn read_label_appends_to_its_output() {
    let mut buf = load(&google_query());
    buf.pos = 12;
    let mut out = String::from("name: ");
    buf.read_label(&mut out).unwrap();
    assert_eq!(out, "name: google.com");
}

#[test]
fn compressed_name_reads_like_plain_one() {
    let mut buf = load(&google_query());
    // "www" followed by a pointer to google.com at 12, and a bare pointer
    buf.pos = 28;
    for b in [3, b'w', b'w', b'w', 0xC0, 12, 0xC0, 12] {
        buf.write(b).unwrap();
    }
    buf.seek(28).unwrap();
    let mut name = String::new();
    buf.read_label(&mut name).unwrap();
    assert_eq!(name, "www.google.com");
    assert_eq!(buf.pos, 28 + 4 + 2);

    let mut plain = String::new();
    buf.read_label(&mut plain).unwrap();
    assert_eq!(plain, "google.com");
    assert_eq!(buf.pos, 34 + 2);

    assert_eq!(buf.get_label(34).unwrap(), buf.get_label(12).unwrap());
    assert_eq!(buf.pos, 36);
}

#[test]
fn pointer_loop_is_rejected() {
    let mut buf = DnsBuffer::new();
    buf.buf[20] = 0xC0;
    buf.buf[21] = 30;
    buf.buf[30] = 0xC0;
    buf.buf[31] = 20;
    buf.pos = 20;
    let mut name = String::from("kept");
    assert_eq!(buf.read_label(&mut name), Err(DnsError::LabelFormat));
    assert_eq!(name, "kept");
    assert_eq!(buf.pos, 20);
    assert_eq!(buf.get_label(30), Err(DnsError::LabelFormat));
}

#[test]
fn self_pointer_is_rejected() {
    let mut buf = DnsBuffer::new();
    buf.buf[0] = 0xC0;
    buf.buf[1] = 0;
    assert_eq!(buf.get_label(0), Err(DnsError::LabelFormat));
}

#[test]
fn pointer_past_the_buffer_is_out_of_bounds() {
    let mut buf = DnsBuffer::new();
    buf.buf[0] = 0xFF;
    buf.buf[1] = 0xFF;
    assert_eq!(buf.get_label(0), Err(DnsError::OutOfBounds));
    // a label whose bytes run past the end
    buf.buf[505] = 10;
    assert_eq!(buf.get_label(505), Err(DnsError::OutOfBounds));
    assert_eq!(buf.get_label(512), Err(DnsError::OutOfBounds));
}

#[test]
fn name_may_end_at_the_last_byte() {
    let mut buf = DnsBuffer::new();
    buf.pos = 507;
    buf.write_label("abc").unwrap();
    assert_eq!(buf.pos, 512);
    assert_eq!(buf.get_label(507).unwrap(), "abc");
    buf.pos = 507;
    let mut name = String::new();
    buf.read_label(&mut name).unwrap();
    assert_eq!(buf.pos, 512);
}

#[test]
fn invalid_utf8_label_reads_with_replacement() {
    let mut buf = DnsBuffer::new();
    buf.buf[..5].copy_from_slice(&[3, b'a', 0xFF, b'b', 0]);
    assert_eq!(buf.get_label(0).unwrap(), "a\u{FFFD}b");
}

#[test]
fn overlong_label_is_rejected_before_writing() {
    let mut buf = DnsBuffer::new();
    let long = "a".repeat(64);
    assert_eq!(buf.write_label(&format!("{}.com", long)), Err(DnsError::LabelFormat));
    assert_eq!(buf.pos, 0);
    assert!(buf.buf.iter().all(|b| *b == 0));
    let ok = "a".repeat(63);
    buf.write_label(&ok).unwrap();
    assert_eq!(buf.pos, 65);
    assert_eq!(buf.buf[0], 63);
    assert_eq!(buf.get_label(0).unwrap(), ok);
}

#[test]
fn label_that_does_not_fit_is_out_of_bounds() {
    let mut buf = DnsBuffer::new();
    buf.pos = 505;
    assert_eq!(buf.write_label("google.com"), Err(DnsError::OutOfBounds));
    assert_eq!(buf.pos, 512);
    assert_eq!(&buf.buf[505..512], &[6, b'g', b'o', b'o', b'g', b'l', b'e']);
}

#[test]
fn utf8_name_round_trip() {
    let mut buf = DnsBuffer::new();
    buf.pos = 3;
    buf.write_label("bücher.de").unwrap();
    assert_eq!(buf.buf[3], 7);
    assert_eq!(buf.pos, 3 + "bücher.de".len() + 2);
    assert_eq!(buf.get_label(3).unwrap(), "bücher.de");
}

#[test]
fn pointer_ring_is_rejected() {
    let mut buf = DnsBuffer::new();
    for (at, to) in [(10usize, 20u8), (20, 30), (30, 10)] {
        buf.buf[at] = 0xC0;
        buf.buf[at + 1] = to;
    }
    for start in [10, 20, 30] {
        assert_eq!(buf.get_label(start), Err(DnsError::LabelFormat));
    }
    // ten pointers in a row are followed; an eleventh is refused
    let mut buf = DnsBuffer::new();
    for k in 0..11usize {
        buf.buf[2 * k] = 0xC0;
        buf.buf[2 * k + 1] = (2 * k + 2) as u8;
    }
    assert_eq!(buf.get_label(2), Ok(String::new()));
    assert_eq!(buf.get_label(0), Err(DnsError::LabelFormat));
}
