//! Parsing the 100-byte SQLite database header (page 1).
//!
//! Every SQLite database file begins with a fixed 100-byte header. It is read into a typed
//! [`DbHeader`], so that the page size, the text encoding and the file version are known before
//! any other page is touched.
//!
//! The file format uses **big-endian** integers everywhere, and the page-size field has one quirk:
//! a stored value of `1` means 65536 bytes.

use crate::text::{decimal, decimal_text, law_decimal, law_decimal_digits, number};
use vstd::prelude::*;
use vstd::string::StringExecFns;

verus! {

/// The fixed size, in bytes, of a SQLite database header.
pub const HEADER_SIZE: usize = 100;

/// Magic string at the start of every SQLite file: `"SQLite format 3\0"`.
///
/// Including the trailing NUL byte this is exactly 16 bytes.
pub const MAGIC: &'static [u8; 16] = &[
    0x53, 0x51, 0x4c, 0x69, 0x74, 0x65, 0x20, 0x66,  // "SQLite f"
    0x6f, 0x72, 0x6d, 0x61, 0x74, 0x20, 0x33, 0x00,  // "ormat 3\0"
];

/// A parsed view of the SQLite database header.
///
/// Fields are only the ones needed to bootstrap the rest of the engine; the full 100-byte layout is
/// documented at <https://www.sqlite.org/fileformat.html>.
#[derive(Debug, Clone, Copy, PartialEq, Eq, Structural)]
pub struct DbHeader {
    /// Page size in bytes. A stored value of 1 means 65536.
    pub page_size: u32,
    /// File format write version (1 = rollback journal, 2 = WAL).
    pub write_version: u8,
    /// File format read version (1 = legacy, 2 = WAL).
    pub read_version: u8,
    /// Bytes of "reserved" space at the end of every page (usually 0).
    pub reserved_space: u8,
    /// Number of freelist pages in the file.
    pub freelist_pages: u32,
    /// Schema cookie: incremented whenever the schema changes.
    pub schema_cookie: u32,
    /// Schema format number: 1, 2, or 4.
    pub schema_format: u32,
    /// Default page cache size suggested by the file.
    pub page_cache_size: u32,
    /// Text encoding: 1 = UTF-8, 2 = UTF-16LE, 3 = UTF-16BE.
    pub text_encoding: u32,
    /// Value set by `PRAGMA user_version`.
    pub user_version: u32,
    /// Value set by `PRAGMA application_id`.
    pub application_id: u32,
    /// SQLite library version that wrote the file (e.g. 3034002 = 3.34.2).
    pub version_number: u32,
}

/// Why some bytes are not a database header.
#[derive(Debug, Clone, Copy, PartialEq, Eq, Structural)]
pub enum HeaderError {
    /// There are fewer than [`HEADER_SIZE`] bytes: this many.
    TooSmall(usize),
    /// The bytes do not start with [`MAGIC`].
    BadMagic,
}

/// What a [`HeaderError`] says to a reader.
pub open spec fn error_text(error: HeaderError) -> Seq<char> {
    match error {
        HeaderError::TooSmall(n) => "file too small: need at least 100 bytes for the header, got "@
            + decimal(n as nat),
        HeaderError::BadMagic => "not a SQLite database: bad magic header"@,
    }
}

impl HeaderError {
    /// The error in words.
    pub fn message(&self) -> (text: String)
        ensures
            text@ == error_text(*self),
    {
        match self {
            HeaderError::TooSmall(n) => {
                let mut text: String = String::from_str(
                    "file too small: need at least 100 bytes for the header, got ",
                );
                text.append(decimal_text(*n as u64).as_str());
                text
            },
            HeaderError::BadMagic => String::from_str("not a SQLite database: bad magic header"),
        }
    }
}

/// The number that the two bytes at `at` stand for, most significant byte first.
pub open spec fn be16(bytes: Seq<u8>, at: int) -> int {
    bytes[at] * 0x100 + bytes[at + 1]
}

/// The number that the four bytes at `at` stand for, most significant byte first.
pub open spec fn be32(bytes: Seq<u8>, at: int) -> int {
    be16(bytes, at) * 0x1_0000 + be16(bytes, at + 2)
}

/// The page size that a stored value of `raw` stands for.
pub open spec fn page_size_of(raw: int) -> int {
    if raw == 1 {
        65536
    } else {
        raw
    }
}

/// The bytes start with the magic string.
pub open spec fn has_magic(bytes: Seq<u8>) -> bool {
    bytes.len() >= 16 && bytes.take(16) == MAGIC@
}

/// `header` holds what the header bytes say.
pub open spec fn describes(header: DbHeader, bytes: Seq<u8>) -> bool {
    &&& header.page_size == page_size_of(be16(bytes, 16))
    &&& header.write_version == bytes[18]
    &&& header.read_version == bytes[19]
    &&& header.reserved_space == bytes[20]
    &&& header.freelist_pages == be32(bytes, 36)
    &&& header.schema_cookie == be32(bytes, 40)
    &&& header.schema_format == be32(bytes, 44)
    &&& header.page_cache_size == be32(bytes, 48)
    &&& header.text_encoding == be32(bytes, 56)
    &&& header.user_version == be32(bytes, 60)
    &&& header.application_id == be32(bytes, 68)
    &&& header.version_number == be32(bytes, 96)
}

/// Read a big-endian `u16` from `buf` at `offset`.
///
/// The SQLite file format stores all integers most-significant byte first.
fn read_u16(buf: &[u8], offset: usize) -> (n: u16)
    requires
        offset + 2 <= buf.len(),
    ensures
        n == be16(buf@, offset as int),
{
    buf[offset] as u16 * 0x100 + buf[offset + 1] as u16
}

/// Read a big-endian `u32` from `buf` at `offset`.
fn read_u32(buf: &[u8], offset: usize) -> (n: u32)
    requires
        offset + 4 <= buf.len(),
    ensures
        n == be32(buf@, offset as int),
{
    let high: u16 = read_u16(buf, offset);
    let low: u16 = read_u16(buf, offset + 2);
    high as u32 * 0x1_0000 + low as u32
}

/// True when `buf` starts with [`MAGIC`].
fn starts_with_magic(buf: &[u8]) -> (yes: bool)
    requires
        buf@.len() >= 16,
    ensures
        yes == has_magic(buf@),
{
    let mut i: usize = 0;
    while i < 16
        invariant
            i <= 16 <= buf@.len(),
            forall|j: int| 0 <= j < i ==> buf@[j] == #[trigger] MAGIC@[j],
        decreases 16 - i,
    {
        if buf[i] != MAGIC[i] {
            assert(buf@.take(16)[i as int] != MAGIC@[i as int]);
            return false;
        }
        i += 1;
    }
    assert(buf@.take(16) =~= MAGIC@);
    true
}

/// Parse a SQLite header from the first bytes of a database file.
///
/// `buf` must be at least [`HEADER_SIZE`] bytes (the whole of page 1). The magic string is
/// validated before any field is read; a mismatch means the file is not a SQLite database at all.
///
/// # Examples
///
/// ```
/// use libnucleus::pager::{self, HEADER_SIZE, MAGIC};
///
/// // Build a minimal valid header: magic string + page size 4096.
/// let mut buf = [0u8; HEADER_SIZE];
/// buf[0..16].copy_from_slice(MAGIC);
/// buf[16..18].copy_from_slice(&4096u16.to_be_bytes());
///
/// let header = pager::parse(&buf).unwrap();
/// assert_eq!(header.page_size, 4096);
/// ```
pub fn parse(buf: &[u8]) -> (header: Result<DbHeader, HeaderError>)
    ensures
        match header {
            Ok(h) => buf@.len() >= HEADER_SIZE && has_magic(buf@) && describes(h, buf@),
            Err(HeaderError::TooSmall(n)) => buf@.len() < HEADER_SIZE && n == buf@.len(),
            Err(HeaderError::BadMagic) => buf@.len() >= HEADER_SIZE && !has_magic(buf@),
        },
{
    if buf.len() < HEADER_SIZE {
        return Err(HeaderError::TooSmall(buf.len()));
    }
    if !starts_with_magic(buf) {
        return Err(HeaderError::BadMagic);
    }
    // 1 is reserved to mean 65536 because the field only holds 16 bits (max 65535).
    let page_size_raw: u16 = read_u16(buf, 16);
    let page_size: u32 = if page_size_raw == 1 {
        65536
    } else {
        page_size_raw as u32
    };
    Ok(
        DbHeader {
            page_size,
            write_version: buf[18],
            read_version: buf[19],
            reserved_space: buf[20],
            freelist_pages: read_u32(buf, 36),
            schema_cookie: read_u32(buf, 40),
            schema_format: read_u32(buf, 44),
            page_cache_size: read_u32(buf, 48),
            text_encoding: read_u32(buf, 56),
            user_version: read_u32(buf, 60),
            application_id: read_u32(buf, 68),
            version_number: read_u32(buf, 96),
        },
    )
}

/// The name of a text encoding: what [`DbHeader::text_encoding`] stands for.
pub open spec fn encoding_label(code: u32) -> Seq<char> {
    if code == 1 {
        "UTF-8"@
    } else if code == 2 {
        "UTF-16LE"@
    } else if code == 3 {
        "UTF-16BE"@
    } else {
        "unknown ("@ + decimal(code as nat) + ")"@
    }
}

/// The name of the text encoding with number `code`.
pub fn encoding_name(code: u32) -> (name: String)
    ensures
        name@ == encoding_label(code),
{
    match code {
        1 => String::from_str("UTF-8"),
        2 => String::from_str("UTF-16LE"),
        3 => String::from_str("UTF-16BE"),
        other => {
            let mut name: String = String::from_str("unknown (");
            name.append(decimal_text(other as u64).as_str());
            name.append(")");
            name
        },
    }
}

/// Only the first [`HEADER_SIZE`] bytes count: whatever follows them in the file, they are a header
/// or not, and say the same.
pub proof fn law_header_only(file: Seq<u8>, header: DbHeader)
    requires
        file.len() >= HEADER_SIZE,
    ensures
        has_magic(file.take(HEADER_SIZE as int)) == has_magic(file),
        describes(header, file.take(HEADER_SIZE as int)) == describes(header, file),
{
    assert(file.take(HEADER_SIZE as int).take(16) =~= file.take(16));
}

/// Some bytes say one thing only.
pub proof fn law_one_header(bytes: Seq<u8>, a: DbHeader, b: DbHeader)
    requires
        describes(a, bytes),
        describes(b, bytes),
    ensures
        a == b,
{
}

/// A page size is never 1 and at most 65536, and no two stored values stand for the same one.
pub proof fn law_page_size(a: Seq<u8>, b: Seq<u8>, ha: DbHeader, hb: DbHeader)
    requires
        describes(ha, a),
        describes(hb, b),
    ensures
        ha.page_size != 1,
        ha.page_size <= 65536,
        ha.page_size == hb.page_size <==> be16(a, 16) == be16(b, 16),
{
}

/// A header takes 100 bytes.
pub proof fn law_header_size()
    ensures
        HEADER_SIZE == 100,
{
}

/// A database file starts with the characters `SQLite format 3` and a byte of zero, and whatever
/// starts with them passes for one.
pub proof fn law_magic(bytes: Seq<u8>)
    ensures
        has_magic(bytes) <==> {
            &&& bytes.len() >= 16
            &&& bytes[0] == 'S' as int
            &&& bytes[1] == 'Q' as int
            &&& bytes[2] == 'L' as int
            &&& bytes[3] == 'i' as int
            &&& bytes[4] == 't' as int
            &&& bytes[5] == 'e' as int
            &&& bytes[6] == ' ' as int
            &&& bytes[7] == 'f' as int
            &&& bytes[8] == 'o' as int
            &&& bytes[9] == 'r' as int
            &&& bytes[10] == 'm' as int
            &&& bytes[11] == 'a' as int
            &&& bytes[12] == 't' as int
            &&& bytes[13] == ' ' as int
            &&& bytes[14] == '3' as int
            &&& bytes[15] == '\0' as int
        },
{
    if has_magic(bytes) {
        assert(bytes.take(16).len() == 16);
        assert(bytes.take(16)[0] == MAGIC@[0]);
        assert(bytes.take(16)[1] == MAGIC@[1]);
        assert(bytes.take(16)[2] == MAGIC@[2]);
        assert(bytes.take(16)[3] == MAGIC@[3]);
        assert(bytes.take(16)[4] == MAGIC@[4]);
        assert(bytes.take(16)[5] == MAGIC@[5]);
        assert(bytes.take(16)[6] == MAGIC@[6]);
        assert(bytes.take(16)[7] == MAGIC@[7]);
        assert(bytes.take(16)[8] == MAGIC@[8]);
        assert(bytes.take(16)[9] == MAGIC@[9]);
        assert(bytes.take(16)[10] == MAGIC@[10]);
        assert(bytes.take(16)[11] == MAGIC@[11]);
        assert(bytes.take(16)[12] == MAGIC@[12]);
        assert(bytes.take(16)[13] == MAGIC@[13]);
        assert(bytes.take(16)[14] == MAGIC@[14]);
        assert(bytes.take(16)[15] == MAGIC@[15]);
    }
    if bytes.len() >= 16 && (forall|i: int| 0 <= i < 16 ==> bytes[i] == #[trigger] MAGIC@[i]) {
        assert(bytes.take(16) =~= MAGIC@);
    }
}

/// The digits of a number to the base 256 are the bytes that it is made of.
proof fn lemma_digits(n: int, a: u8, b: u8, c: u8, d: u8)
    ensures
        n == (a * 0x100 + b) * 0x1_0000 + (c * 0x100 + d) <==> {
            &&& 0 <= n
            &&& n / 0x100_0000 == a
            &&& n / 0x1_0000 % 0x100 == b
            &&& n / 0x100 % 0x100 == c
            &&& n % 0x100 == d
        },
{
}

/// A header holds its fields byte by byte, most significant byte first, each at its place: what
/// bytes say and what the fields of a header are written as is the same.
pub proof fn law_header_fields(bytes: Seq<u8>, header: DbHeader)
    ensures
        describes(header, bytes) <==> {
            &&& header.page_size != 1
            &&& header.page_size == 65536 ==> bytes[16] == 0 && bytes[17] == 1
            &&& header.page_size != 65536 ==> bytes[16] == header.page_size / 0x100 && bytes[17]
                == header.page_size % 0x100
            &&& bytes[18] == header.write_version
            &&& bytes[19] == header.read_version
            &&& bytes[20] == header.reserved_space
            &&& bytes[36] == header.freelist_pages / 0x100_0000
            &&& bytes[37] == header.freelist_pages / 0x1_0000 % 0x100
            &&& bytes[38] == header.freelist_pages / 0x100 % 0x100
            &&& bytes[39] == header.freelist_pages % 0x100
            &&& bytes[40] == header.schema_cookie / 0x100_0000
            &&& bytes[41] == header.schema_cookie / 0x1_0000 % 0x100
            &&& bytes[42] == header.schema_cookie / 0x100 % 0x100
            &&& bytes[43] == header.schema_cookie % 0x100
            &&& bytes[44] == header.schema_format / 0x100_0000
            &&& bytes[45] == header.schema_format / 0x1_0000 % 0x100
            &&& bytes[46] == header.schema_format / 0x100 % 0x100
            &&& bytes[47] == header.schema_format % 0x100
            &&& bytes[48] == header.page_cache_size / 0x100_0000
            &&& bytes[49] == header.page_cache_size / 0x1_0000 % 0x100
            &&& bytes[50] == header.page_cache_size / 0x100 % 0x100
            &&& bytes[51] == header.page_cache_size % 0x100
            &&& bytes[56] == header.text_encoding / 0x100_0000
            &&& bytes[57] == header.text_encoding / 0x1_0000 % 0x100
            &&& bytes[58] == header.text_encoding / 0x100 % 0x100
            &&& bytes[59] == header.text_encoding % 0x100
            &&& bytes[60] == header.user_version / 0x100_0000
            &&& bytes[61] == header.user_version / 0x1_0000 % 0x100
            &&& bytes[62] == header.user_version / 0x100 % 0x100
            &&& bytes[63] == header.user_version % 0x100
            &&& bytes[68] == header.application_id / 0x100_0000
            &&& bytes[69] == header.application_id / 0x1_0000 % 0x100
            &&& bytes[70] == header.application_id / 0x100 % 0x100
            &&& bytes[71] == header.application_id % 0x100
            &&& bytes[96] == header.version_number / 0x100_0000
            &&& bytes[97] == header.version_number / 0x1_0000 % 0x100
            &&& bytes[98] == header.version_number / 0x100 % 0x100
            &&& bytes[99] == header.version_number % 0x100
        },
{
    lemma_digits(header.freelist_pages as int, bytes[36], bytes[37], bytes[38], bytes[39]);
    lemma_digits(header.schema_cookie as int, bytes[40], bytes[41], bytes[42], bytes[43]);
    lemma_digits(header.schema_format as int, bytes[44], bytes[45], bytes[46], bytes[47]);
    lemma_digits(header.page_cache_size as int, bytes[48], bytes[49], bytes[50], bytes[51]);
    lemma_digits(header.text_encoding as int, bytes[56], bytes[57], bytes[58], bytes[59]);
    lemma_digits(header.user_version as int, bytes[60], bytes[61], bytes[62], bytes[63]);
    lemma_digits(header.application_id as int, bytes[68], bytes[69], bytes[70], bytes[71]);
    lemma_digits(header.version_number as int, bytes[96], bytes[97], bytes[98], bytes[99]);
}

/// Two files have the same value in a field if and only if they have the same bytes at its place.
pub proof fn law_fields_apart(a: Seq<u8>, b: Seq<u8>, ha: DbHeader, hb: DbHeader)
    requires
        describes(ha, a),
        describes(hb, b),
    ensures
        ha.page_size == hb.page_size <==> a[16] == b[16] && a[17] == b[17],
        ha.write_version == hb.write_version <==> a[18] == b[18],
        ha.read_version == hb.read_version <==> a[19] == b[19],
        ha.reserved_space == hb.reserved_space <==> a[20] == b[20],
        ha.freelist_pages == hb.freelist_pages <==> (forall|i: int| 36 <= i < 40 ==> #[trigger] a[i] == b[i]),
        ha.schema_cookie == hb.schema_cookie <==> (forall|i: int| 40 <= i < 44 ==> #[trigger] a[i] == b[i]),
        ha.schema_format == hb.schema_format <==> (forall|i: int| 44 <= i < 48 ==> #[trigger] a[i] == b[i]),
        ha.page_cache_size == hb.page_cache_size <==> (forall|i: int| 48 <= i < 52 ==> #[trigger] a[i] == b[i]),
        ha.text_encoding == hb.text_encoding <==> (forall|i: int| 56 <= i < 60 ==> #[trigger] a[i] == b[i]),
        ha.user_version == hb.user_version <==> (forall|i: int| 60 <= i < 64 ==> #[trigger] a[i] == b[i]),
        ha.application_id == hb.application_id <==> (forall|i: int| 68 <= i < 72 ==> #[trigger] a[i] == b[i]),
        ha.version_number == hb.version_number <==> (forall|i: int| 96 <= i < 100 ==> #[trigger] a[i] == b[i]),
{
    law_header_fields(a, ha);
    law_header_fields(b, hb);
    if ha.freelist_pages != hb.freelist_pages {
        assert(a[36] != b[36] || a[37] != b[37] || a[38] != b[38] || a[39] != b[39]);
    }
    if ha.schema_cookie != hb.schema_cookie {
        assert(a[40] != b[40] || a[41] != b[41] || a[42] != b[42] || a[43] != b[43]);
    }
    if ha.schema_format != hb.schema_format {
        assert(a[44] != b[44] || a[45] != b[45] || a[46] != b[46] || a[47] != b[47]);
    }
    if ha.page_cache_size != hb.page_cache_size {
        assert(a[48] != b[48] || a[49] != b[49] || a[50] != b[50] || a[51] != b[51]);
    }
    if ha.text_encoding != hb.text_encoding {
        assert(a[56] != b[56] || a[57] != b[57] || a[58] != b[58] || a[59] != b[59]);
    }
    if ha.user_version != hb.user_version {
        assert(a[60] != b[60] || a[61] != b[61] || a[62] != b[62] || a[63] != b[63]);
    }
    if ha.application_id != hb.application_id {
        assert(a[68] != b[68] || a[69] != b[69] || a[70] != b[70] || a[71] != b[71]);
    }
    if ha.version_number != hb.version_number {
        assert(a[96] != b[96] || a[97] != b[97] || a[98] != b[98] || a[99] != b[99]);
    }
}

/// The known encodings have their names, and every other number is told: the number in the label
/// reads as the code.
pub proof fn law_encoding_label(code: u32)
    ensures
        code == 1 <==> encoding_label(code) == seq!['U', 'T', 'F', '-', '8'],
        code == 2 <==> encoding_label(code) == seq!['U', 'T', 'F', '-', '1', '6', 'L', 'E'],
        code == 3 <==> encoding_label(code) == seq!['U', 'T', 'F', '-', '1', '6', 'B', 'E'],
        !(1 <= code <= 3) ==> {
            let label = encoding_label(code);
            &&& label.len() > 10
            &&& label.take(9) == seq!['u', 'n', 'k', 'n', 'o', 'w', 'n', ' ', '(']
            &&& label.last() == ')'
            &&& number(label.subrange(9, label.len() - 1)) == code
        },
{
    reveal_strlit("UTF-8");
    reveal_strlit("UTF-16LE");
    reveal_strlit("UTF-16BE");
    reveal_strlit("unknown (");
    reveal_strlit(")");
    let label = encoding_label(code);
    assert("UTF-8"@ =~= seq!['U', 'T', 'F', '-', '8']);
    assert("UTF-16LE"@ =~= seq!['U', 'T', 'F', '-', '1', '6', 'L', 'E']);
    assert("UTF-16BE"@ =~= seq!['U', 'T', 'F', '-', '1', '6', 'B', 'E']);
    assert("UTF-16LE"@[6] == 'L' && "UTF-16BE"@[6] == 'B');
    if !(1 <= code <= 3) {
        law_decimal(code as nat);
        law_decimal_digits(code as nat);
        assert(label.subrange(9, label.len() - 1) =~= decimal(code as nat));
        assert(label.take(9) =~= seq!['u', 'n', 'k', 'n', 'o', 'w', 'n', ' ', '(']);
        assert(label[0] == 'u');
    }
}

/// No two codes have the same label.
pub proof fn law_labels_apart(a: u32, b: u32)
    requires
        encoding_label(a) == encoding_label(b),
    ensures
        a == b,
{
    law_encoding_label(a);
    law_encoding_label(b);
}

/// A message says how many bytes there were, or that the start of the file is wrong.
pub proof fn law_error_text(n: usize)
    ensures
        ({
            let text = error_text(HeaderError::TooSmall(n));
            let lead = "file too small: need at least 100 bytes for the header, got "@;
            &&& text.len() > lead.len()
            &&& text.take(lead.len() as int) == lead
            &&& number(text.skip(lead.len() as int)) == n
        }),
        error_text(HeaderError::BadMagic) == "not a SQLite database: bad magic header"@,
{
    let text = error_text(HeaderError::TooSmall(n));
    let lead = "file too small: need at least 100 bytes for the header, got "@;
    law_decimal(n as nat);
    law_decimal_digits(n as nat);
    assert(text.take(lead.len() as int) =~= lead);
    assert(text.skip(lead.len() as int) =~= decimal(n as nat));
}

/// What a parse returns. Fewer than 100 bytes are too few, and the error says how many there are; other
/// bytes that do not start as a database does are refused for that; and from all others every field is
/// read, most significant byte first.
pub proof fn law_parse(buf: &[u8], header: Result<DbHeader, HeaderError>)
    requires
        call_ensures(parse, (buf,), header),
    ensures
        buf@.len() < 100 ==> (header matches Err(HeaderError::TooSmall(n)) && n == buf@.len()),
        buf@.len() >= 100 && !has_magic(buf@) ==> header == Err::<DbHeader, HeaderError>(
            HeaderError::BadMagic,
        ),
        buf@.len() >= 100 && has_magic(buf@) ==> header is Ok,
        header matches Ok(h) ==> {
            &&& h.page_size == if buf@[16] == 0 && buf@[17] == 1 {
                0x1_0000
            } else {
                buf@[16] * 0x100 + buf@[17]
            }
            &&& h.write_version == buf@[18]
            &&& h.read_version == buf@[19]
            &&& h.reserved_space == buf@[20]
            &&& h.freelist_pages == buf@[36] * 0x100_0000 + buf@[37] * 0x1_0000 + buf@[38] * 0x100 + buf@[39]
            &&& h.schema_cookie == buf@[40] * 0x100_0000 + buf@[41] * 0x1_0000 + buf@[42] * 0x100 + buf@[43]
            &&& h.schema_format == buf@[44] * 0x100_0000 + buf@[45] * 0x1_0000 + buf@[46] * 0x100 + buf@[47]
            &&& h.page_cache_size == buf@[48] * 0x100_0000 + buf@[49] * 0x1_0000 + buf@[50] * 0x100 + buf@[51]
            &&& h.text_encoding == buf@[56] * 0x100_0000 + buf@[57] * 0x1_0000 + buf@[58] * 0x100 + buf@[59]
            &&& h.user_version == buf@[60] * 0x100_0000 + buf@[61] * 0x1_0000 + buf@[62] * 0x100 + buf@[63]
            &&& h.application_id == buf@[68] * 0x100_0000 + buf@[69] * 0x1_0000 + buf@[70] * 0x100 + buf@[71]
            &&& h.version_number == buf@[96] * 0x100_0000 + buf@[97] * 0x1_0000 + buf@[98] * 0x100 + buf@[99]
        },
{
}

/// To parse bytes that hold the fields of a header, most significant byte first and each at its place,
/// gives this header.
pub proof fn law_parse_back(buf: &[u8], written: DbHeader, header: Result<DbHeader, HeaderError>)
    requires
        call_ensures(parse, (buf,), header),
        buf@.len() >= 100,
        has_magic(buf@),
        written.page_size == 65536 && buf@[16] == 0 && buf@[17] == 1 || written.page_size < 65536
            && written.page_size != 1 && buf@[16] == written.page_size / 0x100 && buf@[17]
            == written.page_size % 0x100,
        buf@[18] == written.write_version,
        buf@[19] == written.read_version,
        buf@[20] == written.reserved_space,
        buf@[36] == written.freelist_pages / 0x100_0000,
        buf@[37] == written.freelist_pages / 0x1_0000 % 0x100,
        buf@[38] == written.freelist_pages / 0x100 % 0x100,
        buf@[39] == written.freelist_pages % 0x100,
        buf@[40] == written.schema_cookie / 0x100_0000,
        buf@[41] == written.schema_cookie / 0x1_0000 % 0x100,
        buf@[42] == written.schema_cookie / 0x100 % 0x100,
        buf@[43] == written.schema_cookie % 0x100,
        buf@[44] == written.schema_format / 0x100_0000,
        buf@[45] == written.schema_format / 0x1_0000 % 0x100,
        buf@[46] == written.schema_format / 0x100 % 0x100,
        buf@[47] == written.schema_format % 0x100,
        buf@[48] == written.page_cache_size / 0x100_0000,
        buf@[49] == written.page_cache_size / 0x1_0000 % 0x100,
        buf@[50] == written.page_cache_size / 0x100 % 0x100,
        buf@[51] == written.page_cache_size % 0x100,
        buf@[56] == written.text_encoding / 0x100_0000,
        buf@[57] == written.text_encoding / 0x1_0000 % 0x100,
        buf@[58] == written.text_encoding / 0x100 % 0x100,
        buf@[59] == written.text_encoding % 0x100,
        buf@[60] == written.user_version / 0x100_0000,
        buf@[61] == written.user_version / 0x1_0000 % 0x100,
        buf@[62] == written.user_version / 0x100 % 0x100,
        buf@[63] == written.user_version % 0x100,
        buf@[68] == written.application_id / 0x100_0000,
        buf@[69] == written.application_id / 0x1_0000 % 0x100,
        buf@[70] == written.application_id / 0x100 % 0x100,
        buf@[71] == written.application_id % 0x100,
        buf@[96] == written.version_number / 0x100_0000,
        buf@[97] == written.version_number / 0x1_0000 % 0x100,
        buf@[98] == written.version_number / 0x100 % 0x100,
        buf@[99] == written.version_number % 0x100,
    ensures
        header == Ok::<DbHeader, HeaderError>(written),
{
    law_header_fields(buf@, written);
    law_one_header(buf@, header->Ok_0, written);
}

/// The name of an encoding is the one that it is known by; of any other the number is in the name.
pub proof fn law_encoding_name(code: u32, name: String)
    requires
        call_ensures(encoding_name, (code,), name),
    ensures
        code == 1 <==> name@ == seq!['U', 'T', 'F', '-', '8'],
        code == 2 <==> name@ == seq!['U', 'T', 'F', '-', '1', '6', 'L', 'E'],
        code == 3 <==> name@ == seq!['U', 'T', 'F', '-', '1', '6', 'B', 'E'],
        !(1 <= code <= 3) ==> {
            &&& name@.len() > 10
            &&& name@.take(9) == seq!['u', 'n', 'k', 'n', 'o', 'w', 'n', ' ', '(']
            &&& name@.last() == ')'
            &&& number(name@.subrange(9, name@.len() - 1)) == code
        },
{
    law_encoding_label(code);
}

/// The message of an error says how many bytes there were, or that the start of the file is wrong.
pub proof fn law_header_message(error: &HeaderError, text: String)
    requires
        call_ensures(HeaderError::message, (error,), text),
    ensures
        match *error {
            HeaderError::TooSmall(n) => {
                let lead = "file too small: need at least 100 bytes for the header, got "@;
                &&& text@.len() > lead.len()
                &&& text@.take(lead.len() as int) == lead
                &&& number(text@.skip(lead.len() as int)) == n
            },
            HeaderError::BadMagic => text@ == "not a SQLite database: bad magic header"@,
        },
{
    if let HeaderError::TooSmall(n) = *error {
        law_error_text(n);
    }
}

} // verus!
