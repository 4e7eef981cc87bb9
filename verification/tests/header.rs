use libnucleus::pager::{self, encoding_name, DbHeader, HeaderError, HEADER_SIZE, MAGIC};

fn minimal(page_size: u16) -> [u8; HEADER_SIZE] {
    let mut buf = [0u8; HEADER_SIZE];
    buf[0..16].copy_from_slice(MAGIC);
    buf[16..18].copy_from_slice(&page_size.to_be_bytes());
    buf
}

#[test]
fn magic_is_the_sqlite_string() {
    assert_eq!(MAGIC, b"SQLite format 3\0");
    assert_eq!(HEADER_SIZE, 100);
}

#[test]
fn minimal_header_parses() {
    let header = pager::parse(&minimal(4096)).unwrap();
    assert_eq!(header.page_size, 4096);
}

#[test]
fn stored_page_size_one_means_65536() {
    assert_eq!(pager::parse(&minimal(1)).unwrap().page_size, 65536);
    assert_eq!(pager::parse(&minimal(0)).unwrap().page_size, 0);
    assert_eq!(pager::parse(&minimal(2)).unwrap().page_size, 2);
    assert_eq!(pager::parse(&minimal(65535)).unwrap().page_size, 65535);
}

#[test]
fn every_field_is_read_from_its_place() {
    let mut buf = [0u8; HEADER_SIZE];
    for (i, b) in buf.iter_mut().enumerate() {
        *b = i as u8;
    }
    buf[0..16].copy_from_slice(MAGIC);
    let want = DbHeader {
        page_size: 0x1011,
        write_version: 18,
        read_version: 19,
        reserved_space: 20,
        freelist_pages: 0x24252627,
        schema_cookie: 0x28292a2b,
        schema_format: 0x2c2d2e2f,
        page_cache_size: 0x30313233,
        text_encoding: 0x38393a3b,
        user_version: 0x3c3d3e3f,
        application_id: 0x44454647,
        version_number: 0x60616263,
    };
    assert_eq!(pager::parse(&buf), Ok(want));
}

#[test]
fn numbers_are_big_endian() {
    let mut buf = minimal(512);
    buf[96..100].copy_from_slice(&3034002u32.to_be_bytes());
    buf[56..60].copy_from_slice(&u32::MAX.to_be_bytes());
    let header = pager::parse(&buf).unwrap();
    assert_eq!(header.version_number, 3034002);
    assert_eq!(header.text_encoding, u32::MAX);
}

#[test]
fn short_input_is_refused() {
    assert_eq!(pager::parse(&[]), Err(HeaderError::TooSmall(0)));
    assert_eq!(pager::parse(&minimal(4096)[0..99]), Err(HeaderError::TooSmall(99)));
    // The length is looked at before the magic string.
    assert_eq!(pager::parse(&[0u8; 50]), Err(HeaderError::TooSmall(50)));
}

#[test]
fn wrong_magic_is_refused() {
    assert_eq!(pager::parse(&[0u8; HEADER_SIZE]), Err(HeaderError::BadMagic));
    for i in 0..16 {
        let mut buf = minimal(4096);
        buf[i] ^= 1;
        assert_eq!(pager::parse(&buf), Err(HeaderError::BadMagic));
    }
}

#[test]
fn bytes_behind_the_header_do_not_count() {
    let buf = minimal(1024);
    let mut longer = buf.to_vec();
    longer.extend_from_slice(&[0xff; 400]);
    assert_eq!(pager::parse(&longer), pager::parse(&buf));
}

#[test]
fn header_errors_in_words() {
    assert_eq!(
        HeaderError::TooSmall(42).message(),
        "file too small: need at least 100 bytes for the header, got 42"
    );
    assert_eq!(
        HeaderError::BadMagic.message(),
        "not a SQLite database: bad magic header"
    );
}

#[test]
fn encodings_have_names() {
    assert_eq!(encoding_name(1), "UTF-8");
    assert_eq!(encoding_name(2), "UTF-16LE");
    assert_eq!(encoding_name(3), "UTF-16BE");
    assert_eq!(encoding_name(0), "unknown (0)");
    assert_eq!(encoding_name(4), "unknown (4)");
    assert_eq!(encoding_name(4294967295), "unknown (4294967295)");
}

#[test]
fn decimal_digits() {
    for n in [0u64, 7, 9, 10, 99, 100, 1234567890, u64::MAX] {
        assert_eq!(libnucleus::text::decimal_text(n), format!("{n}"));
    }
}
