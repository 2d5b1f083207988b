//! The byte encoding of integers and strings shared by the three segments.
//!
//! Every value on disk is written and read by `bincode` with its fixed-width
//! little-endian configuration. This module states that layout as spec
//! functions over byte sequences, wraps the `bincode` calls, and offers
//! positioned reads and appends on byte buffers built on those calls.
use vstd::bytes::*;
use vstd::prelude::*;
use vstd::slice::*;
use vstd::utf8::*;

verus! {

/// `bincode::ErrorKind`, the reason why an encoding or decoding has failed.
/// It is carried through as it comes; nothing is read from it.
#[verifier::external_type_specification]
#[verifier::external_body]
pub struct ExErrorKind(bincode::ErrorKind);

/// Number of bytes taken by an encoded length or offset.
pub const WORD_LEN: usize = 8;

/// Number of bytes taken by an encoded variant tag.
pub const TAG_LEN: usize = 4;

/// The eight little-endian bytes of `x`.
pub open spec fn word(x: u64) -> Seq<u8> {
    spec_u64_to_le_bytes(x)
}

/// The integer held by the first eight bytes of `bytes`.
pub open spec fn leading_word(bytes: Seq<u8>) -> u64 {
    spec_u64_from_le_bytes(bytes.subrange(0, 8))
}

/// The four little-endian bytes of `x`.
pub open spec fn tag(x: u32) -> Seq<u8> {
    spec_u32_to_le_bytes(x)
}

/// The integer held by the first four bytes of `bytes`.
pub open spec fn leading_tag(bytes: Seq<u8>) -> u32 {
    spec_u32_from_le_bytes(bytes.subrange(0, 4))
}

/// The encoding of a string: the length of its UTF-8 form as a word, then
/// the UTF-8 bytes themselves.
pub open spec fn text(s: Seq<char>) -> Seq<u8> {
    word(encode_utf8(s).len() as u64) + encode_utf8(s)
}

/// Whether `s` is short enough for its length to fit in a word.
pub open spec fn fits(s: Seq<char>) -> bool {
    encode_utf8(s).len() <= u64::MAX
}

/// Whether `bytes` begins with a complete, valid encoded string.
pub open spec fn has_text(bytes: Seq<u8>) -> bool {
    &&& bytes.len() >= 8
    &&& leading_word(bytes) <= bytes.len() - 8
    &&& valid_utf8(bytes.subrange(8, 8 + leading_word(bytes)))
}

/// Number of bytes taken by the encoded string at the start of `bytes`.
pub open spec fn text_len(bytes: Seq<u8>) -> int {
    8 + leading_word(bytes)
}

/// The string encoded at the start of `bytes`.
pub open spec fn leading_text(bytes: Seq<u8>) -> Seq<char> {
    decode_utf8(bytes.subrange(8, text_len(bytes)))
}

/// A word followed by anything reads back as the integer it was made from.
pub proof fn lemma_word_reads_back(x: u64, rest: Seq<u8>)
    ensures
        word(x).len() == 8,
        leading_word(word(x) + rest) == x,
{
    lemma_auto_spec_u64_to_from_le_bytes();
    assert((word(x) + rest).subrange(0, 8) =~= word(x));
}

/// A tag followed by anything reads back as the integer it was made from.
pub proof fn lemma_tag_reads_back(x: u32, rest: Seq<u8>)
    ensures
        tag(x).len() == 4,
        leading_tag(tag(x) + rest) == x,
{
    lemma_auto_spec_u32_to_from_le_bytes();
    assert((tag(x) + rest).subrange(0, 4) =~= tag(x));
}

/// An encoded string followed by anything reads back as the string, and the
/// read consumes exactly the encoding.
pub proof fn lemma_text_reads_back(s: Seq<char>, rest: Seq<u8>)
    requires
        fits(s),
    ensures
        text(s).len() == 8 + encode_utf8(s).len(),
        has_text(text(s) + rest),
        text_len(text(s) + rest) == text(s).len(),
        leading_text(text(s) + rest) == s,
{
    let payload = encode_utf8(s);
    let all = text(s) + rest;
    lemma_word_reads_back(payload.len() as u64, payload + rest);
    assert(all =~= word(payload.len() as u64) + (payload + rest));
    assert(all.subrange(8, 8 + payload.len() as int) =~= payload);
    encode_utf8_valid_utf8(s);
    encode_utf8_decode_utf8(s);
}

/// What a read of a string finds depends only on the bytes it consumes.
pub proof fn lemma_text_ignores_tail(bytes: Seq<u8>, extra: Seq<u8>)
    requires
        has_text(bytes),
    ensures
        has_text(bytes + extra),
        text_len(bytes + extra) == text_len(bytes),
        leading_text(bytes + extra) == leading_text(bytes),
{
    let all = bytes + extra;
    assert(all.subrange(0, 8) =~= bytes.subrange(0, 8));
    assert(all.subrange(8, 8 + leading_word(bytes)) =~= bytes.subrange(8, 8 + leading_word(bytes)));
}

/// The bytes a read of a string consumes are the encoding of what it found.
pub proof fn lemma_text_is_canonical(bytes: Seq<u8>)
    requires
        has_text(bytes),
    ensures
        fits(leading_text(bytes)),
        bytes.subrange(0, text_len(bytes)) == text(leading_text(bytes)),
{
    let n = leading_word(bytes);
    let payload = bytes.subrange(8, 8 + n);
    decode_utf8_encode_utf8(payload);
    lemma_auto_spec_u64_to_from_le_bytes();
    assert(word(n) == bytes.subrange(0, 8));
    assert(bytes.subrange(0, 8 + n) =~= bytes.subrange(0, 8) + payload);
}

/// `bincode::serialize` on a `u64`: always succeeds and yields the eight
/// little-endian bytes of the value.
#[verifier::external_body]
fn encode_u64(x: u64) -> (r: Result<Vec<u8>, Box<bincode::ErrorKind>>)
    ensures
        r is Ok,
        r matches Ok(v) ==> v@ == word(x),
{
    bincode::serialize(&x)
}

/// `bincode::deserialize` to a `u64`: succeeds exactly when at least eight
/// bytes are given, and then yields the little-endian value of the first
/// eight; bytes after them are ignored.
#[verifier::external_body]
pub(crate) fn decode_u64(bytes: &[u8]) -> (r: Result<u64, Box<bincode::ErrorKind>>)
    ensures
        r is Ok <==> bytes@.len() >= 8,
        r matches Ok(x) ==> x == leading_word(bytes@),
{
    bincode::deserialize::<u64>(bytes)
}

/// `bincode::serialize` on a `u32`: always succeeds and yields the four
/// little-endian bytes of the value.
#[verifier::external_body]
fn encode_u32(x: u32) -> (r: Result<Vec<u8>, Box<bincode::ErrorKind>>)
    ensures
        r is Ok,
        r matches Ok(v) ==> v@ == tag(x),
{
    bincode::serialize(&x)
}

/// `bincode::deserialize` to a `u32`: succeeds exactly when at least four
/// bytes are given, and then yields the little-endian value of the first
/// four; bytes after them are ignored.
#[verifier::external_body]
pub(crate) fn decode_u32(bytes: &[u8]) -> (r: Result<u32, Box<bincode::ErrorKind>>)
    ensures
        r is Ok <==> bytes@.len() >= 4,
        r matches Ok(x) ==> x == leading_tag(bytes@),
{
    bincode::deserialize::<u32>(bytes)
}

/// `bincode::serialize` on a string slice: always succeeds and yields the
/// byte length of the string as a word followed by its UTF-8 bytes.
#[verifier::external_body]
fn encode_str(s: &str) -> (r: Result<Vec<u8>, Box<bincode::ErrorKind>>)
    ensures
        r is Ok,
        r matches Ok(v) ==> v@ == text(s@),
{
    bincode::serialize(s)
}

/// `bincode::deserialize` to a `String`: reads a word as the length, fails
/// when fewer bytes than that follow or when they are not valid UTF-8, and
/// otherwise yields the string they spell; bytes after them are ignored.
#[verifier::external_body]
fn decode_string(bytes: &[u8]) -> (r: Result<String, Box<bincode::ErrorKind>>)
    ensures
        r is Ok <==> has_text(bytes@),
        r matches Ok(s) ==> s@ == leading_text(bytes@),
{
    bincode::deserialize::<String>(bytes)
}

/// The part of `bytes` from `pos` on; empty when `pos` lies beyond the end.
pub fn tail(bytes: &[u8], pos: u64) -> (rest: &[u8])
    ensures
        rest@ == spec_tail(bytes@, pos as int),
{
    let len = bytes.len();
    if pos <= len as u64 {
        slice_subrange(bytes, pos as usize, len)
    } else {
        slice_subrange(bytes, len, len)
    }
}

/// The part of `bytes` from `pos` on; empty when `pos` lies beyond the end.
pub open spec fn spec_tail(bytes: Seq<u8>, pos: int) -> Seq<u8> {
    if 0 <= pos <= bytes.len() {
        bytes.skip(pos)
    } else {
        Seq::empty()
    }
}

/// Appends the encoding of `x` to `out`.
pub fn put_word(out: &mut Vec<u8>, x: u64) -> (r: Result<(), Box<bincode::ErrorKind>>)
    ensures
        r is Ok,
        final(out)@ == old(out)@ + word(x),
{
    match encode_u64(x) {
        Ok(mut v) => {
            out.append(&mut v);
            Ok(())
        },
        Err(e) => Err(e),
    }
}

/// Appends the encoding of the tag `x` to `out`.
pub fn put_tag(out: &mut Vec<u8>, x: u32) -> (r: Result<(), Box<bincode::ErrorKind>>)
    ensures
        r is Ok,
        final(out)@ == old(out)@ + tag(x),
{
    match encode_u32(x) {
        Ok(mut v) => {
            out.append(&mut v);
            Ok(())
        },
        Err(e) => Err(e),
    }
}

/// Appends the encoding of `s` to `out`.
pub fn put_text(out: &mut Vec<u8>, s: &str) -> (r: Result<(), Box<bincode::ErrorKind>>)
    ensures
        r is Ok,
        final(out)@ == old(out)@ + text(s@),
        fits(s@),
{
    let _ = s.as_bytes().len();
    match encode_str(s) {
        Ok(mut v) => {
            out.append(&mut v);
            Ok(())
        },
        Err(e) => Err(e),
    }
}

/// Reads the string at the start of `bytes` and tells how many bytes it took.
pub fn get_text(bytes: &[u8]) -> (r: Result<(String, usize), Box<bincode::ErrorKind>>)
    ensures
        r is Ok <==> has_text(bytes@),
        r matches Ok((s, n)) ==> s@ == leading_text(bytes@) && n == text_len(bytes@),
{
    match decode_string(bytes) {
        Ok(s) => {
            let n = s.as_str().as_bytes().len();
            let total = bytes.len();
            proof {
                let payload = bytes@.subrange(8, text_len(bytes@));
                decode_utf8_encode_utf8(payload);
                assert(encode_utf8(s@) == payload);
                assert(n + 8 <= total);
            }
            Ok((s, WORD_LEN + n))
        },
        Err(e) => Err(e),
    }
}

} // verus!
