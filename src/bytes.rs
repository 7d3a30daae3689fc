//! Byte-stream primitives: little-endian 32-bit integers and strings
//! prefixed by their byte length.

use vstd::prelude::*;
use vstd::slice::slice_subrange;
use vstd::utf8::*;

verus! {

broadcast use vstd::string::group_string_axioms;

/// Why a byte sequence could not be read.
#[derive(Clone, Copy, Debug, PartialEq, Eq, Structural)]
pub enum DecodeError {
    /// The bytes ended before a field, a string or an action was complete.
    UnexpectedEof,
    /// A string's bytes are not well-formed UTF-8.
    InvalidUtf8,
    /// In strict mode, a version field did not hold the expected constant.
    VersionMismatch { expected: u32, found: u32 },
}

/// How a reader treats the version fields it meets.
#[derive(Clone, Copy, Debug, PartialEq, Eq, Structural)]
pub struct ParserOptions {
    /// Check every version field against its constant; otherwise skip them.
    pub strict: bool,
}

/// The four little-endian bytes of `v`.
pub open spec fn u32_le(v: u32) -> Seq<u8> {
    seq![(v & 0xff) as u8, ((v >> 8u32) & 0xff) as u8, ((v >> 16u32) & 0xff) as u8, ((v >> 24u32) & 0xff) as u8]
}

/// The integer whose little-endian bytes are `b0 b1 b2 b3`.
pub open spec fn u32_from_le(b0: u8, b1: u8, b2: u8, b3: u8) -> u32 {
    (b0 as u32) | ((b1 as u32) << 8u32) | ((b2 as u32) << 16u32) | ((b3 as u32) << 24u32)
}

/// A string as written: its UTF-8 byte count, then its UTF-8 bytes.
pub open spec fn pas_string(s: Seq<char>) -> Seq<u8> {
    u32_le(encode_utf8(s).len() as u32) + encode_utf8(s)
}

/// Whether an exec read result, with its end position, agrees with a spec one.
pub open spec fn agrees<T>(r: Result<(T, usize), DecodeError>, s: Result<(T, nat), DecodeError>) -> bool {
    match r {
        Ok((v, e)) => s == Ok::<(T, nat), DecodeError>((v, e as nat)),
        Err(x) => s == Err::<(T, nat), DecodeError>(x),
    }
}

/// Reading a little-endian `u32` at `pos`: the value and the position after it.
pub open spec fn parse_u32(b: Seq<u8>, pos: nat) -> Result<(u32, nat), DecodeError> {
    if pos + 4 <= b.len() {
        Ok((u32_from_le(b[pos as int], b[pos + 1int], b[pos + 2int], b[pos + 3int]), pos + 4))
    } else {
        Err(DecodeError::UnexpectedEof)
    }
}

/// Reading a length-prefixed string at `pos`: its text and the position after it.
pub open spec fn parse_pas_string(b: Seq<u8>, pos: nat) -> Result<(Seq<char>, nat), DecodeError> {
    match parse_u32(b, pos) {
        Err(e) => Err(e),
        Ok((len, start)) => if start + len > b.len() {
            Err(DecodeError::UnexpectedEof)
        } else if !valid_utf8(b.subrange(start as int, start + len as int)) {
            Err(DecodeError::InvalidUtf8)
        } else {
            Ok((decode_utf8(b.subrange(start as int, start + len as int)), (start + len) as nat))
        },
    }
}

/// Decoding the little-endian bytes of `v` gives `v` back.
pub proof fn lemma_u32_le_round_trip(v: u32)
    ensures
        u32_from_le(u32_le(v)[0], u32_le(v)[1], u32_le(v)[2], u32_le(v)[3]) == v,
{
    assert(((v & 0xff) as u8 as u32) | ((((v >> 8u32) & 0xff) as u8 as u32) << 8u32) | ((((v
        >> 16u32) & 0xff) as u8 as u32) << 16u32) | ((((v >> 24u32) & 0xff) as u8 as u32) << 24u32)
        == v) by (bit_vector);
}

/// A `u32` written at the end of `pre` reads back, whatever follows it.
pub proof fn lemma_parse_u32_written(pre: Seq<u8>, v: u32, suf: Seq<u8>)
    ensures
        parse_u32(pre + u32_le(v) + suf, pre.len()) == Ok::<(u32, nat), DecodeError>(
            (v, pre.len() + 4),
        ),
{
    let b = pre + u32_le(v) + suf;
    let p = pre.len() as int;
    assert(b[p] == u32_le(v)[0] && b[p + 1] == u32_le(v)[1]);
    assert(b[p + 2] == u32_le(v)[2] && b[p + 3] == u32_le(v)[3]);
    lemma_u32_le_round_trip(v);
}

/// A `u32` cut short at the end of the bytes cannot be read.
pub proof fn lemma_parse_u32_cut(pre: Seq<u8>, v: u32, k: nat)
    requires
        k < 4,
    ensures
        parse_u32(pre + u32_le(v).take(k as int), pre.len()) == Err::<(u32, nat), DecodeError>(
            DecodeError::UnexpectedEof,
        ),
{
}

/// A string written at the end of `pre` reads back, whatever follows it.
pub proof fn lemma_parse_pas_string_written(pre: Seq<u8>, s: Seq<char>, suf: Seq<u8>)
    requires
        encode_utf8(s).len() <= u32::MAX,
    ensures
        parse_pas_string(pre + pas_string(s) + suf, pre.len()) == Ok::<(Seq<char>, nat), DecodeError>(
            (s, pre.len() + pas_string(s).len()),
        ),
{
    let e = encode_utf8(s);
    let b = pre + pas_string(s) + suf;
    assert(b =~= pre + u32_le(e.len() as u32) + (e + suf));
    lemma_parse_u32_written(pre, e.len() as u32, e + suf);
    let start = pre.len() + 4;
    assert(b.subrange(start as int, start + e.len() as int) =~= e);
    encode_utf8_valid_utf8(s);
    encode_utf8_decode_utf8(s);
}

/// A string cut short at the end of the bytes cannot be read.
pub proof fn lemma_parse_pas_string_cut(pre: Seq<u8>, s: Seq<char>, k: nat)
    requires
        encode_utf8(s).len() <= u32::MAX,
        k < pas_string(s).len(),
    ensures
        parse_pas_string(pre + pas_string(s).take(k as int), pre.len()) == Err::<
            (Seq<char>, nat),
            DecodeError,
        >(DecodeError::UnexpectedEof),
{
    let e = encode_utf8(s);
    let b = pre + pas_string(s).take(k as int);
    if k < 4 {
        assert(pas_string(s).take(k as int) =~= u32_le(e.len() as u32).take(k as int));
        lemma_parse_u32_cut(pre, e.len() as u32, k);
    } else {
        assert(b =~= pre + u32_le(e.len() as u32) + e.take(k - 4));
        lemma_parse_u32_written(pre, e.len() as u32, e.take(k - 4));
    }
}

/// Appends the four little-endian bytes of `v`.
pub fn write_u32_le(out: &mut Vec<u8>, v: u32)
    ensures
        final(out)@ == old(out)@ + u32_le(v),
{
    out.push((v & 0xff) as u8);
    out.push(((v >> 8u32) & 0xff) as u8);
    out.push(((v >> 16u32) & 0xff) as u8);
    out.push(((v >> 24u32) & 0xff) as u8);
    assert(out@ =~= old(out)@ + u32_le(v));
}

/// Reads a little-endian `u32` at `pos`; returns it with the position after it.
pub fn read_u32_le(bin: &[u8], pos: usize) -> (r: Result<(u32, usize), DecodeError>)
    requires
        pos <= bin@.len(),
    ensures
        agrees(r, parse_u32(bin@, pos as nat)),
{
    if bin.len() - pos < 4 {
        return Err(DecodeError::UnexpectedEof);
    }
    let v = (bin[pos] as u32) | ((bin[pos + 1] as u32) << 8u32) | ((bin[pos + 2] as u32) << 16u32)
        | ((bin[pos + 3] as u32) << 24u32);
    Ok((v, pos + 4))
}

/// Appends `s` as its UTF-8 byte count followed by its UTF-8 bytes; returns
/// the number of bytes written.
pub fn write_pas_string(out: &mut Vec<u8>, s: &str) -> (n: usize)
    requires
        encode_utf8(s@).len() <= u32::MAX,
        old(out)@.len() + pas_string(s@).len() <= usize::MAX,
    ensures
        final(out)@ == old(out)@ + pas_string(s@),
        n == pas_string(s@).len(),
{
    let b = s.as_bytes();
    write_u32_le(out, b.len() as u32);
    let ghost mid = out@;
    let mut i: usize = 0;
    while i < b.len()
        invariant
            b@ == encode_utf8(s@),
            i <= b@.len(),
            mid == old(out)@ + u32_le(b@.len() as u32),
            out@ == mid + b@.take(i as int),
            mid.len() + b@.len() <= usize::MAX,
        decreases b@.len() - i,
    {
        out.push(b[i]);
        i += 1;
        assert(out@ =~= mid + b@.take(i as int));
    }
    assert(b@.take(i as int) =~= b@);
    b.len() + 4
}

/// Relies on std::str::from_utf8: it accepts exactly the well-formed UTF-8
/// byte sequences, and the text it returns is made of those very bytes.
#[verifier::external_body]
fn utf8_text(b: &[u8]) -> (r: Option<&str>)
    ensures
        match r {
            Some(s) => encode_utf8(s@) == b@,
            None => !valid_utf8(b@),
        },
{
    std::str::from_utf8(b).ok()
}

/// Reads a length-prefixed string at `pos`; returns it with the position after it.
pub fn read_pas_string(bin: &[u8], pos: usize) -> (r: Result<(String, usize), DecodeError>)
    requires
        pos <= bin@.len(),
    ensures
        match r {
            Ok((s, e)) => parse_pas_string(bin@, pos as nat) == Ok::<(Seq<char>, nat), DecodeError>(
                (s@, e as nat),
            ),
            Err(x) => parse_pas_string(bin@, pos as nat) == Err::<(Seq<char>, nat), DecodeError>(x),
        },
{
    let (len, start) = match read_u32_le(bin, pos) {
        Ok(p) => p,
        Err(e) => return Err(e),
    };
    if bin.len() - start < len as usize {
        return Err(DecodeError::UnexpectedEof);
    }
    let end = start + len as usize;
    let raw = slice_subrange(bin, start, end);
    match utf8_text(raw) {
        None => Err(DecodeError::InvalidUtf8),
        Some(text) => {
            proof {
                encode_utf8_decode_utf8(text@);
                encode_utf8_valid_utf8(text@);
                assert(raw@ =~= bin@.subrange(start as int, end as int));
            }
            let owned = text.to_string();
            assert(owned@ == text@);
            Ok((owned, end))
        },
    }
}

} // verus!
