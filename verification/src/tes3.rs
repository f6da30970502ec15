//! The header of a TES3 plugin (Morrowind's `.esm` and `.esp` files): its version,
//! description and masters, read from the file's bytes.
use vstd::prelude::*;

verus! {

/// What `String::from_utf8_lossy` makes of the bytes: their text, with U+FFFD for each
/// invalid sequence.
pub uninterp spec fn utf8_lossy(bytes: Seq<u8>) -> Seq<char>;

/// `String::from_utf8_lossy`. Valid UTF-8 decodes to its text; the replacement of
/// invalid sequences is only named.
#[verifier::external_body]
pub(crate) fn from_utf8_lossy(bytes: &[u8]) -> (r: String)
    ensures
        r@ == utf8_lossy(bytes@),
        vstd::utf8::valid_utf8(bytes@) ==> r@ == vstd::utf8::decode_utf8(bytes@),
{
    String::from_utf8_lossy(bytes).to_string()
}

/// The magic number of a TES3 plugin: `TES3`.
pub const TES3_MAGIC: u32 = 861095252;

/// The magic number of the header record: `HEDR`.
pub const HEDR_MAGIC: u32 = 1380205896;

/// The magic number of a master's name: `MAST`.
pub const MAST_MAGIC: u32 = 1414742349;

/// The magic number of a master's size: `DATA`.
pub const DATA_MAGIC: u32 = 1096040772;

/// Why a header could not be read.
#[derive(Debug, Clone, Copy, PartialEq, Eq, Structural)]
pub enum HeaderError {
    /// The data ended before the header did.
    UnexpectedEof,
    /// The data is not that of a TES3 plugin.
    NotTes3,
}

/// The message of an error reading a header.
pub open spec fn header_error_message(e: HeaderError) -> Seq<char> {
    match e {
        HeaderError::UnexpectedEof => "failed to fill whole buffer"@,
        HeaderError::NotTes3 => "Not a valid TES3 plugin"@,
    }
}

impl HeaderError {
    pub fn message(&self) -> (r: &'static str)
        ensures
            r@ == header_error_message(*self),
    {
        match self {
            HeaderError::UnexpectedEof => "failed to fill whole buffer",
            HeaderError::NotTes3 => "Not a valid TES3 plugin",
        }
    }
}

/// A plugin's header. The version is a 32-bit float, held as its bits.
#[derive(Debug)]
pub struct Tes3Header {
    pub version_bits: u32,
    pub description: String,
    pub masters: Option<Vec<(String, u64)>>,
}

/// The header as a value.
pub struct HeaderV {
    pub version_bits: u32,
    pub description: Seq<char>,
    pub masters: Option<Seq<(Seq<char>, u64)>>,
}

pub open spec fn header_view(h: Tes3Header) -> HeaderV {
    HeaderV {
        version_bits: h.version_bits,
        description: h.description@,
        masters: match h.masters {
            Some(m) => Some(crate::masters_view(m@)),
            None => None,
        },
    }
}

/// The little-endian `u32` at `i`.
pub open spec fn le_u32(b: Seq<u8>, i: int) -> u32 {
    (b[i] + b[i + 1] * 256 + b[i + 2] * 65536 + b[i + 3] * 16777216) as u32
}

/// The little-endian `u64` at `i`.
pub open spec fn le_u64(b: Seq<u8>, i: int) -> u64 {
    (le_u32(b, i) + le_u32(b, i + 4) * 4294967296) as u64
}

/// The text without its trailing NUL characters.
pub open spec fn trim_nul(s: Seq<char>) -> Seq<char>
    decreases s.len(),
{
    if s.len() > 0 && s.last() == '\0' {
        trim_nul(s.drop_last())
    } else {
        s
    }
}

/// The master record at `pos`: `MAST`, the name's size, the name, `DATA`, 8 and the
/// master's size. Nothing where another record starts there; else the master and
/// where the next record starts.
pub open spec fn master_at(b: Seq<u8>, pos: int) -> Result<Option<((Seq<char>, u64), int)>, HeaderError> {
    if pos < 0 || pos + 4 > b.len() {
        Err(HeaderError::UnexpectedEof)
    } else if le_u32(b, pos) != MAST_MAGIC {
        Ok(None)
    } else if pos + 8 > b.len() {
        Err(HeaderError::UnexpectedEof)
    } else {
        let name_end = pos + 8 + le_u32(b, pos + 4);
        if name_end + 4 > b.len() {
            Err(HeaderError::UnexpectedEof)
        } else if le_u32(b, name_end) != DATA_MAGIC {
            Err(HeaderError::NotTes3)
        } else if name_end + 8 > b.len() {
            Err(HeaderError::UnexpectedEof)
        } else if le_u32(b, name_end + 4) != 8 {
            Err(HeaderError::NotTes3)
        } else if name_end + 16 > b.len() {
            Err(HeaderError::UnexpectedEof)
        } else {
            Ok(
                Some(
                    (
                        (trim_nul(utf8_lossy(b.subrange(pos + 8, name_end))), le_u64(b, name_end + 8)),
                        name_end + 16,
                    ),
                ),
            )
        }
    }
}

/// The masters from `pos` on; the list ends at the end of the header or at another
/// record.
#[verifier::opaque]
pub open spec fn masters_from(b: Seq<u8>, pos: int, stream_size: int) -> Result<
    Seq<(Seq<char>, u64)>,
    HeaderError,
>
    decreases b.len() - pos,
{
    match master_at(b, pos) {
        Err(e) => Err(e),
        Ok(None) => Ok(seq![]),
        Ok(Some(m)) => if m.1 >= stream_size || m.1 <= pos {
            Ok(seq![m.0])
        } else {
            match masters_from(b, m.1, stream_size) {
                Ok(rest) => Ok(seq![m.0] + rest),
                Err(e) => Err(e),
            }
        },
    }
}

/// The `HEDR` record: its magic, size, version, an unused field, the author (32
/// bytes), the description (256 bytes) and the number of records; then the masters,
/// where the header goes on.
pub open spec fn hedr_spec(b: Seq<u8>, stream_size: int) -> Result<HeaderV, HeaderError> {
    if b.len() < 4 {
        Err(HeaderError::UnexpectedEof)
    } else if le_u32(b, 0) != HEDR_MAGIC {
        Err(HeaderError::NotTes3)
    } else if b.len() < 308 {
        Err(HeaderError::UnexpectedEof)
    } else {
        let description = trim_nul(utf8_lossy(b.subrange(48, 304)));
        if 308 >= stream_size {
            Ok(HeaderV { version_bits: le_u32(b, 8), description, masters: None })
        } else {
            match masters_from(b, 308, stream_size) {
                Ok(m) => Ok(HeaderV { version_bits: le_u32(b, 8), description, masters: Some(m) }),
                Err(e) => Err(e),
            }
        }
    }
}

fn read_le_u32(b: &[u8], i: usize) -> (r: u32)
    requires
        i + 4 <= b@.len(),
    ensures
        r == le_u32(b@, i as int),
{
    let b0 = b[i] as u32;
    let b1 = b[i + 1] as u32;
    let b2 = b[i + 2] as u32;
    let b3 = b[i + 3] as u32;
    assert(b0 + b1 * 256 + b2 * 65536 + b3 * 16777216 <= 0xFFFF_FFFF) by (nonlinear_arith)
        requires
            b0 <= 255,
            b1 <= 255,
            b2 <= 255,
            b3 <= 255,
    ;
    b0 + b1 * 256 + b2 * 65536 + b3 * 16777216
}

fn read_le_u64(b: &[u8], i: usize) -> (r: u64)
    requires
        i + 8 <= b@.len(),
    ensures
        r == le_u64(b@, i as int),
{
    let n = b.len();
    let lo = read_le_u32(b, i) as u64;
    let hi = read_le_u32(b, i + 4) as u64;
    assert(lo + hi * 4294967296 <= 0xFFFF_FFFF_FFFF_FFFF) by (nonlinear_arith)
        requires
            lo <= 0xFFFF_FFFF,
            hi <= 0xFFFF_FFFF,
    ;
    lo + hi * 4294967296
}

fn trim_nul_text(s: String) -> (r: String)
    ensures
        r@ == trim_nul(s@),
{
    let c = crate::text::str_chars(s.as_str());
    let mut n: usize = c.len();
    assert(c@.subrange(0, n as int) =~= c@);
    while n > 0 && c[n - 1] == '\0'
        invariant
            0 <= n <= c@.len(),
            trim_nul(c@) == trim_nul(c@.subrange(0, n as int)),
        decreases n,
    {
        assert(c@.subrange(0, n as int).drop_last() =~= c@.subrange(0, n - 1));
        n = n - 1;
    }
    let t = crate::text::slice_copy(c.as_slice(), 0, n);
    crate::text::chars_to_string(t.as_slice())
}

fn text_of(b: &[u8], from: usize, to: usize) -> (r: String)
    requires
        from <= to <= b@.len(),
    ensures
        r@ == trim_nul(utf8_lossy(b@.subrange(from as int, to as int))),
{
    let mut part: Vec<u8> = Vec::new();
    let mut i = from;
    while i < to
        invariant
            from <= i <= to <= b@.len(),
            part@ == b@.subrange(from as int, i as int),
        decreases to - i,
    {
        part.push(b[i]);
        i = i + 1;
        assert(part@ =~= b@.subrange(from as int, i as int));
    }
    trim_nul_text(from_utf8_lossy(part.as_slice()))
}

/// Reads the master record at `pos`.
fn read_master(b: &[u8], pos: usize) -> (r: Result<Option<(String, u64, usize)>, HeaderError>)
    requires
        pos <= b@.len(),
    ensures
        match master_at(b@, pos as int) {
            Err(e) => r == Err::<Option<(String, u64, usize)>, HeaderError>(e),
            Ok(None) => r == Ok::<Option<(String, u64, usize)>, HeaderError>(None),
            Ok(Some(m)) => r matches Ok(Some(t)) && t.0@ == m.0.0 && t.1 == m.0.1 && t.2 as int
                == m.1 && pos < t.2 <= b@.len(),
        },
{
    let n = b.len();
    if n < 4 || pos > n - 4 {
        return Err(HeaderError::UnexpectedEof);
    }
    if read_le_u32(b, pos) != MAST_MAGIC {
        return Ok(None);
    }
    if n < 8 || pos > n - 8 {
        return Err(HeaderError::UnexpectedEof);
    }
    let master_size = read_le_u32(b, pos + 4) as usize;
    if master_size > n - (pos + 8) || n - (pos + 8) - master_size < 4 {
        return Err(HeaderError::UnexpectedEof);
    }
    let name_end = pos + 8 + master_size;
    if read_le_u32(b, name_end) != DATA_MAGIC {
        return Err(HeaderError::NotTes3);
    }
    if name_end > n - 8 {
        return Err(HeaderError::UnexpectedEof);
    }
    if read_le_u32(b, name_end + 4) != 8 {
        return Err(HeaderError::NotTes3);
    }
    if name_end > n - 16 {
        return Err(HeaderError::UnexpectedEof);
    }
    let name = text_of(b, pos + 8, name_end);
    let size = read_le_u64(b, name_end + 8);
    Ok(Some((name, size, name_end + 16)))
}

/// Reads the start of a plugin file: its magic number and the size of its header,
/// which starts 16 bytes in.
pub fn parse_header_prefix(prefix: &[u8]) -> (r: Result<u32, HeaderError>)
    ensures
        r == (if prefix@.len() < 4 {
            Err(HeaderError::UnexpectedEof)
        } else if le_u32(prefix@, 0) != TES3_MAGIC {
            Err(HeaderError::NotTes3)
        } else if prefix@.len() < 8 {
            Err(HeaderError::UnexpectedEof)
        } else {
            Ok(le_u32(prefix@, 4))
        }),
{
    if prefix.len() < 4 {
        return Err(HeaderError::UnexpectedEof);
    }
    if read_le_u32(prefix, 0) != TES3_MAGIC {
        return Err(HeaderError::NotTes3);
    }
    if prefix.len() < 8 {
        return Err(HeaderError::UnexpectedEof);
    }
    Ok(read_le_u32(prefix, 4))
}

pub open spec fn header_out(r: Result<Tes3Header, HeaderError>) -> Result<HeaderV, HeaderError> {
    match r {
        Ok(h) => Ok(header_view(h)),
        Err(e) => Err(e),
    }
}

/// The list of masters with `acc` before it.
pub open spec fn with_prefix(acc: Seq<(Seq<char>, u64)>, r: Result<Seq<(Seq<char>, u64)>, HeaderError>) -> Result<
    Seq<(Seq<char>, u64)>,
    HeaderError,
> {
    match r {
        Ok(rest) => Ok(acc + rest),
        Err(e) => Err(e),
    }
}

/// One step of the masters.
pub proof fn lemma_masters_step(b: Seq<u8>, pos: int, stream_size: int)
    ensures
        masters_from(b, pos, stream_size) == match master_at(b, pos) {
            Err(e) => Err(e),
            Ok(None) => Ok(seq![]),
            Ok(Some(m)) => if m.1 >= stream_size || m.1 <= pos {
                Ok(seq![m.0])
            } else {
                with_prefix(seq![m.0], masters_from(b, m.1, stream_size))
            },
        },
{
    reveal(masters_from);
}

/// Reads the masters that follow the `HEDR` fields.
fn read_masters(b: &[u8], stream_size: u64) -> (r: Result<Vec<(String, u64)>, HeaderError>)
    requires
        308 <= b@.len(),
        308 < stream_size,
    ensures
        match r {
            Ok(v) => masters_from(b@, 308, stream_size as int) == Ok::<
                Seq<(Seq<char>, u64)>,
                HeaderError,
            >(crate::masters_view(v@)),
            Err(e) => masters_from(b@, 308, stream_size as int) == Err::<
                Seq<(Seq<char>, u64)>,
                HeaderError,
            >(e),
        },
{
    let ghost bv = b@;
    let mut masters: Vec<(String, u64)> = Vec::new();
    let mut pos: usize = 308;
    loop
        invariant_except_break
            (pos as int) < stream_size,
            masters_from(bv, 308, stream_size as int) == with_prefix(
                crate::masters_view(masters@),
                masters_from(bv, pos as int, stream_size as int),
            ),
        invariant
            308 <= pos <= b@.len(),
            bv == b@,
        ensures
            masters_from(bv, 308, stream_size as int) == Ok::<Seq<(Seq<char>, u64)>, HeaderError>(
                crate::masters_view(masters@),
            ),
        decreases b@.len() - pos,
    {
        let ghost rest = masters_from(bv, pos as int, stream_size as int);
        proof {
            lemma_masters_step(bv, pos as int, stream_size as int);
        }
        match read_master(b, pos) {
            Err(e) => {
                assert(rest == Err::<Seq<(Seq<char>, u64)>, HeaderError>(e));
                return Err(e);
            },
            Ok(None) => {
                assert(crate::masters_view(masters@) + seq![] =~= crate::masters_view(masters@));
                break;
            },
            Ok(Some((name, size, next))) => {
                let ghost before = masters@;
                let ghost tail = masters_from(bv, next as int, stream_size as int);
                assert(next as u64 >= stream_size ==> rest == Ok::<Seq<(Seq<char>, u64)>, HeaderError>(seq![(name@, size)]));
                assert(next as u64 >= stream_size || rest == with_prefix(seq![(name@, size)], tail));
                masters.push((name, size));
                assert(crate::masters_view(masters@) =~= crate::masters_view(before) + seq![(name@, size)]);
                proof {
                    match tail {
                        Ok(t) => {
                            assert(crate::masters_view(before) + (seq![(name@, size)] + t) =~= crate::masters_view(
                                masters@,
                            ) + t);
                        },
                        Err(_) => {},
                    }
                }
                pos = next;
                if pos as u64 >= stream_size {
                    assert(crate::masters_view(masters@) + seq![] =~= crate::masters_view(masters@));
                    break;
                }
            },
        }
    }
    Ok(masters)
}

/// Reads the `HEDR` record of a plugin from its bytes (the header holds `stream_size`
/// of them): version, description and masters.
pub fn parse_hedr(reader: &[u8], stream_size: u64) -> (r: Result<Tes3Header, HeaderError>)
    ensures
        header_out(r) == hedr_spec(reader@, stream_size as int),
{
    let b = reader;
    if b.len() < 4 {
        return Err(HeaderError::UnexpectedEof);
    }
    if read_le_u32(b, 0) != HEDR_MAGIC {
        return Err(HeaderError::NotTes3);
    }
    if b.len() < 308 {
        return Err(HeaderError::UnexpectedEof);
    }
    let version_bits = read_le_u32(b, 8);
    let description = text_of(b, 48, 304);
    if 308 >= stream_size {
        return Ok(Tes3Header { version_bits, description, masters: None });
    }
    match read_masters(b, stream_size) {
        Ok(masters) => Ok(Tes3Header { version_bits, description, masters: Some(masters) }),
        Err(e) => Err(e),
    }
}

} // verus!
