//! The command lines of the interactive client of the fixed-width store.
//!
//! A line holds a command and its arguments, separated by single blanks:
//! `put KEY VALUE`, `get KEY`, `delete KEY` or `scan CURSOR`. Every word is
//! taken without the white space around it, and the command in any case of
//! letters. Keys are cut or padded with zero bytes to eight bytes and
//! values to 256 bytes.
use crate::bytes::{filled, get_bytes_with_fill};
use crate::minikv::{DeleteRequest, GetRequest, PutRequest, ScanRequest};
use vstd::prelude::*;
use vstd::slice::slice_subrange;

verus! {

/// Why a command cannot be carried out as it stands.
#[derive(Clone, Copy, Debug, PartialEq, Eq, Structural)]
pub enum Refusal {
    /// A put lacks its key and its value.
    PutNeedsKeyAndValue,
    /// A put lacks its value. The flag tells whether the key given was not
    /// of eight bytes.
    PutNeedsValue(bool),
    /// A get lacks its key.
    GetNeedsKey,
    /// A delete lacks its key.
    DeleteNeedsKey,
    /// The cursor of a scan is not a number.
    ScanCursorNotANumber,
    /// A scan lacks its cursor.
    ScanNeedsCursor,
}

/// What a command line asks for.
#[derive(Debug)]
pub enum Command {
    /// The line is empty: nothing to do.
    Nothing,
    /// Put a value under a key.
    Put {
        /// The request to send.
        request: PutRequest,
        /// Whether the key given was not of eight bytes and has been cut or
        /// padded.
        key_fitted: bool,
        /// Whether the value given was not of 256 bytes and has been cut or
        /// padded.
        value_fitted: bool,
    },
    /// Read the value under a key.
    Get(GetRequest),
    /// Take a key out of the store.
    Delete(DeleteRequest),
    /// Scan keys from a cursor on.
    Scan(ScanRequest),
    /// The command cannot be carried out, for the reason given.
    Refused(Refusal),
    /// The line names no command.
    Invalid,
}

/// The mathematical value of a command.
pub enum Parsed {
    /// Nothing to do.
    Nothing,
    /// Put `value` under `key`.
    Put { key: Seq<u8>, value: Seq<u8>, key_fitted: bool, value_fitted: bool },
    /// Read the value under `key`.
    Get { key: Seq<u8> },
    /// Take `key` out of the store.
    Delete { key: Seq<u8> },
    /// Scan keys from `cursor` on.
    Scan { cursor: u64 },
    /// The command cannot be carried out.
    Refused(Refusal),
    /// The line names no command.
    Invalid,
}

impl View for Command {
    type V = Parsed;

    open spec fn view(&self) -> Parsed {
        match self {
            Command::Nothing => Parsed::Nothing,
            Command::Put { request, key_fitted, value_fitted } => Parsed::Put {
                key: request.key@,
                value: request.value@,
                key_fitted: *key_fitted,
                value_fitted: *value_fitted,
            },
            Command::Get(request) => Parsed::Get { key: request.key@ },
            Command::Delete(request) => Parsed::Delete { key: request.key@ },
            Command::Scan(request) => Parsed::Scan { cursor: request.cursor },
            Command::Refused(why) => Parsed::Refused(*why),
            Command::Invalid => Parsed::Invalid,
        }
    }
}

/// The position of the first blank of `line` at or after `from`, or the
/// length of the line where there is none: the end of the word that starts
/// at `from`.
pub open spec fn word_end(line: Seq<u8>, from: int) -> int
    decreases line.len() - from,
{
    if from < 0 || from >= line.len() {
        line.len() as int
    } else if line[from] == 0x20 {
        from
    } else {
        word_end(line, from + 1)
    }
}

/// Whether `b` alone is a white space character.
pub open spec fn is_space1(b: u8) -> bool {
    0x09 <= b <= 0x0d || b == 0x20
}

/// Whether the two bytes spell a white space character.
pub open spec fn is_space2(b0: u8, b1: u8) -> bool {
    b0 == 0xc2 && (b1 == 0x85 || b1 == 0xa0)
}

/// Whether the three bytes spell a white space character.
pub open spec fn is_space3(b0: u8, b1: u8, b2: u8) -> bool {
    ||| b0 == 0xe1 && b1 == 0x9a && b2 == 0x80
    ||| b0 == 0xe2 && b1 == 0x80 && (0x80 <= b2 <= 0x8a || b2 == 0xa8 || b2 == 0xa9 || b2 == 0xaf)
    ||| b0 == 0xe2 && b1 == 0x81 && b2 == 0x9f
    ||| b0 == 0xe3 && b1 == 0x80 && b2 == 0x80
}

/// Number of bytes of the white space character that `s` starts with; 0
/// where it starts with none.
pub open spec fn space_before(s: Seq<u8>) -> int {
    if s.len() >= 1 && is_space1(s[0]) {
        1
    } else if s.len() >= 2 && is_space2(s[0], s[1]) {
        2
    } else if s.len() >= 3 && is_space3(s[0], s[1], s[2]) {
        3
    } else {
        0
    }
}

/// Number of bytes of the white space character that `s` ends with; 0
/// where it ends with none.
pub open spec fn space_after(s: Seq<u8>) -> int {
    if s.len() >= 1 && is_space1(s[s.len() - 1]) {
        1
    } else if s.len() >= 2 && is_space2(s[s.len() - 2], s[s.len() - 1]) {
        2
    } else if s.len() >= 3 && is_space3(s[s.len() - 3], s[s.len() - 2], s[s.len() - 1]) {
        3
    } else {
        0
    }
}

/// `s` without the white space it starts with.
pub open spec fn trim_start(s: Seq<u8>) -> Seq<u8>
    decreases s.len(),
{
    if space_before(s) == 0 {
        s
    } else {
        trim_start(s.skip(space_before(s)))
    }
}

/// `s` without the white space it ends with.
pub open spec fn trim_end(s: Seq<u8>) -> Seq<u8>
    decreases s.len(),
{
    if space_after(s) == 0 {
        s
    } else {
        trim_end(s.take(s.len() - space_after(s)))
    }
}

/// `s` without the white space around it.
pub open spec fn trimmed(s: Seq<u8>) -> Seq<u8> {
    trim_end(trim_start(s))
}

/// The word of `line` that starts at `from`, without the white space
/// around it.
pub open spec fn word_at(line: Seq<u8>, from: int) -> Seq<u8> {
    trimmed(line.subrange(from, word_end(line, from)))
}

/// `s` with its capital letters of the basic alphabet made small.
pub open spec fn lowered(s: Seq<u8>) -> Seq<u8> {
    Seq::new(
        s.len(),
        |i: int|
            if 0x41 <= s[i] <= 0x5a {
                (s[i] + 0x20) as u8
            } else {
                s[i]
            },
    )
}

/// The number that the decimal digits `s` spell.
pub open spec fn digits_value(s: Seq<u8>) -> int
    decreases s.len(),
{
    if s.len() == 0 {
        0
    } else {
        digits_value(s.drop_last()) * 10 + (s.last() - 0x30)
    }
}

/// Whether every byte of `s` is a decimal digit.
pub open spec fn all_digits(s: Seq<u8>) -> bool {
    forall|i: int| 0 <= i < s.len() ==> 0x30 <= #[trigger] s[i] <= 0x39
}

/// The number that `s` spells in decimal digits, with or without a plus
/// sign in front; `None` where it spells none that fits in 64 bits.
pub open spec fn number(s: Seq<u8>) -> Option<u64> {
    let digits = if s.len() > 0 && s[0] == 0x2b {
        s.skip(1)
    } else {
        s
    };
    if digits.len() == 0 || !all_digits(digits) || digits_value(digits) > u64::MAX {
        None
    } else {
        Some(digits_value(digits) as u64)
    }
}

/// The bytes of the word "put".
pub open spec fn put_word() -> Seq<u8> {
    seq![0x70u8, 0x75u8, 0x74u8]
}

/// The bytes of the word "get".
pub open spec fn get_word() -> Seq<u8> {
    seq![0x67u8, 0x65u8, 0x74u8]
}

/// The bytes of the word "delete".
pub open spec fn delete_word() -> Seq<u8> {
    seq![0x64u8, 0x65u8, 0x6cu8, 0x65u8, 0x74u8, 0x65u8]
}

/// The bytes of the word "scan".
pub open spec fn scan_word() -> Seq<u8> {
    seq![0x73u8, 0x63u8, 0x61u8, 0x6eu8]
}

/// What the line asks for.
pub open spec fn parsed(line: Seq<u8>) -> Parsed {
    let first_end = word_end(line, 0);
    let command = lowered(word_at(line, 0));
    let has_first = first_end < line.len();
    let first = word_at(line, first_end + 1);
    let second_end = word_end(line, first_end + 1);
    let has_second = has_first && second_end < line.len();
    let second = word_at(line, second_end + 1);
    if command.len() == 0 {
        Parsed::Nothing
    } else if command == put_word() {
        if has_second {
            Parsed::Put {
                key: filled(first, 8, 0),
                value: filled(second, 256, 0),
                key_fitted: first.len() != 8,
                value_fitted: second.len() != 256,
            }
        } else if has_first {
            Parsed::Refused(Refusal::PutNeedsValue(first.len() != 8))
        } else {
            Parsed::Refused(Refusal::PutNeedsKeyAndValue)
        }
    } else if command == get_word() {
        if has_first {
            Parsed::Get { key: filled(first, 8, 0) }
        } else {
            Parsed::Refused(Refusal::GetNeedsKey)
        }
    } else if command == delete_word() {
        if has_first {
            Parsed::Delete { key: filled(first, 8, 0) }
        } else {
            Parsed::Refused(Refusal::DeleteNeedsKey)
        }
    } else if command == scan_word() {
        if !has_first {
            Parsed::Refused(Refusal::ScanNeedsCursor)
        } else {
            match number(first) {
                Some(cursor) => Parsed::Scan { cursor },
                None => Parsed::Refused(Refusal::ScanCursorNotANumber),
            }
        }
    } else {
        Parsed::Invalid
    }
}

/// The end of the word of `line` that starts at `from`.
fn find_word_end(line: &[u8], from: usize) -> (end: usize)
    requires
        from <= line@.len(),
    ensures
        end == word_end(line@, from as int),
        from <= end <= line@.len(),
{
    let mut i: usize = from;
    while i < line.len() && line[i] != 0x20
        invariant
            from <= i <= line@.len(),
            word_end(line@, from as int) == word_end(line@, i as int),
        decreases line@.len() - i,
    {
        i += 1;
    }
    i
}

/// Number of bytes of the white space character that `s` starts with.
fn leading_space(s: &[u8]) -> (n: usize)
    ensures
        n == space_before(s@),
        n <= s@.len(),
{
    let len = s.len();
    if len >= 1 && (0x09 <= s[0] && s[0] <= 0x0d || s[0] == 0x20) {
        1
    } else if len >= 2 && s[0] == 0xc2 && (s[1] == 0x85 || s[1] == 0xa0) {
        2
    } else if len >= 3 && space3(s[0], s[1], s[2]) {
        3
    } else {
        0
    }
}

/// Number of bytes of the white space character that `s` ends with.
fn trailing_space(s: &[u8]) -> (n: usize)
    ensures
        n == space_after(s@),
        n <= s@.len(),
{
    let len = s.len();
    if len >= 1 && (0x09 <= s[len - 1] && s[len - 1] <= 0x0d || s[len - 1] == 0x20) {
        1
    } else if len >= 2 && s[len - 2] == 0xc2 && (s[len - 1] == 0x85 || s[len - 1] == 0xa0) {
        2
    } else if len >= 3 && space3(s[len - 3], s[len - 2], s[len - 1]) {
        3
    } else {
        0
    }
}

/// Whether the three bytes spell a white space character.
fn space3(b0: u8, b1: u8, b2: u8) -> (r: bool)
    ensures
        r == is_space3(b0, b1, b2),
{
    b0 == 0xe1 && b1 == 0x9a && b2 == 0x80 || b0 == 0xe2 && b1 == 0x80 && (0x80 <= b2 && b2
        <= 0x8a || b2 == 0xa8 || b2 == 0xa9 || b2 == 0xaf) || b0 == 0xe2 && b1 == 0x81 && b2
        == 0x9f || b0 == 0xe3 && b1 == 0x80 && b2 == 0x80
}

/// `s` without the white space around it.
pub fn trim(s: &[u8]) -> (t: &[u8])
    ensures
        t@ == trimmed(s@),
{
    let mut t = s;
    let mut n = leading_space(t);
    while n > 0
        invariant
            n == space_before(t@),
            n <= t@.len(),
            trim_start(s@) == trim_start(t@),
        decreases t@.len(),
    {
        t = slice_subrange(t, n, t.len());
        n = leading_space(t);
    }
    let mut n = trailing_space(t);
    while n > 0
        invariant
            n == space_after(t@),
            n <= t@.len(),
            trimmed(s@) == trim_end(t@),
        decreases t@.len(),
    {
        t = slice_subrange(t, 0, t.len() - n);
        n = trailing_space(t);
    }
    t
}

/// `s` with its capital letters of the basic alphabet made small.
pub fn lower(s: &[u8]) -> (l: Vec<u8>)
    ensures
        l@ == lowered(s@),
{
    let mut l: Vec<u8> = Vec::new();
    let mut i: usize = 0;
    while i < s.len()
        invariant
            i <= s@.len(),
            l@ == lowered(s@).take(i as int),
        decreases s@.len() - i,
    {
        let b = s[i];
        if 0x41 <= b && b <= 0x5a {
            l.push(b + 0x20);
        } else {
            l.push(b);
        }
        assert(l@ =~= lowered(s@).take(i + 1));
        i += 1;
    }
    assert(lowered(s@).take(i as int) =~= lowered(s@));
    l
}

/// The value of digits grows with every digit that follows.
proof fn lemma_digits_value_grows(s: Seq<u8>, i: int)
    requires
        all_digits(s),
        0 <= i <= s.len(),
    ensures
        0 <= digits_value(s.take(i)) <= digits_value(s),
    decreases s.len() - i,
{
    if i < s.len() {
        lemma_digits_value_grows(s, i + 1);
        assert(s.take(i + 1).drop_last() =~= s.take(i));
        lemma_digits_value_positive(s.take(i));
    } else {
        assert(s.take(i) =~= s);
        lemma_digits_value_positive(s);
    }
}

/// The value of digits is not negative.
proof fn lemma_digits_value_positive(s: Seq<u8>)
    requires
        all_digits(s),
    ensures
        0 <= digits_value(s),
    decreases s.len(),
{
    if s.len() > 0 {
        assert(all_digits(s.drop_last())) by {
            assert forall|i: int| 0 <= i < s.drop_last().len() implies 0x30
                <= #[trigger] s.drop_last()[i] <= 0x39 by {
                assert(s.drop_last()[i] == s[i]);
            }
        }
        lemma_digits_value_positive(s.drop_last());
    }
}

/// Reads `s` as a number in decimal digits, with or without a plus sign in
/// front.
pub fn read_number(s: &[u8]) -> (n: Option<u64>)
    ensures
        n == number(s@),
{
    let digits = if s.len() > 0 && s[0] == 0x2b {
        slice_subrange(s, 1, s.len())
    } else {
        s
    };
    assert(digits@ =~= if s@.len() > 0 && s@[0] == 0x2b {
        s@.skip(1)
    } else {
        s@
    });
    if digits.len() == 0 {
        return None;
    }
    let mut value: u64 = 0;
    let mut i: usize = 0;
    assert(digits@.take(0) =~= Seq::<u8>::empty());
    while i < digits.len()
        invariant
            i <= digits@.len(),
            digits@.len() > 0,
            number(s@) == if !all_digits(digits@) || digits_value(digits@) > u64::MAX {
                None
            } else {
                Some(digits_value(digits@) as u64)
            },
            all_digits(digits@.take(i as int)),
            value == digits_value(digits@.take(i as int)),
        decreases digits@.len() - i,
    {
        let b = digits[i];
        if b < 0x30 || b > 0x39 {
            assert(!(0x30 <= digits@[i as int] <= 0x39));
            return None;
        }
        let d = (b - 0x30) as u64;
        proof {
            assert(digits@.take(i + 1).drop_last() =~= digits@.take(i as int));
            assert(all_digits(digits@.take(i + 1))) by {
                assert forall|j: int| 0 <= j < i + 1 implies 0x30 <= #[trigger] digits@.take(
                    i + 1,
                )[j] <= 0x39 by {
                    if j < i {
                        assert(digits@.take(i as int)[j] == digits@[j]);
                    }
                }
            }
        }
        if value > (u64::MAX - d) / 10 {
            proof {
                assert(digits_value(digits@.take(i + 1)) == value * 10 + d);
                assert(value * 10 + d > u64::MAX);
                if all_digits(digits@) {
                    lemma_digits_value_grows(digits@, i + 1);
                }
            }
            return None;
        }
        value = value * 10 + d;
        i += 1;
    }
    assert(digits@.take(i as int) =~= digits@);
    Some(value)
}

/// Whether `s` spells the word of the given bytes.
fn spells(s: &Vec<u8>, word: &[u8]) -> (same: bool)
    ensures
        same == (s@ == word@),
{
    crate::bytes::bytes_equal(s.as_slice(), word)
}

/// Reads a command line.
pub fn parse_command(line: &[u8]) -> (command: Command)
    ensures
        command@ == parsed(line@),
{
    let len = line.len();
    let first_end = find_word_end(line, 0);
    let command = lower(trim(slice_subrange(line, 0, first_end)));
    let has_first = first_end < len;
    let (first, second_end): (&[u8], usize) = if has_first {
        let end = find_word_end(line, first_end + 1);
        (trim(slice_subrange(line, first_end + 1, end)), end)
    } else {
        (slice_subrange(line, len, len), len)
    };
    let has_second = has_first && second_end < len;
    let second: &[u8] = if has_second {
        let end = find_word_end(line, second_end + 1);
        trim(slice_subrange(line, second_end + 1, end))
    } else {
        slice_subrange(line, len, len)
    };
    let put: [u8; 3] = [0x70, 0x75, 0x74];
    let get: [u8; 3] = [0x67, 0x65, 0x74];
    let delete: [u8; 6] = [0x64, 0x65, 0x6c, 0x65, 0x74, 0x65];
    let scan: [u8; 4] = [0x73, 0x63, 0x61, 0x6e];
    proof {
        assert(put@ =~= put_word() && get@ =~= get_word() && delete@ =~= delete_word() && scan@
            =~= scan_word());
    }
    if command.len() == 0 {
        Command::Nothing
    } else if spells(&command, put.as_slice()) {
        if has_second {
            Command::Put {
                request: PutRequest {
                    key: get_bytes_with_fill(first, 8, 0),
                    value: get_bytes_with_fill(second, 256, 0),
                },
                key_fitted: first.len() != 8,
                value_fitted: second.len() != 256,
            }
        } else if has_first {
            Command::Refused(Refusal::PutNeedsValue(first.len() != 8))
        } else {
            Command::Refused(Refusal::PutNeedsKeyAndValue)
        }
    } else if spells(&command, get.as_slice()) {
        if has_first {
            Command::Get(GetRequest { key: get_bytes_with_fill(first, 8, 0) })
        } else {
            Command::Refused(Refusal::GetNeedsKey)
        }
    } else if spells(&command, delete.as_slice()) {
        if has_first {
            Command::Delete(DeleteRequest { key: get_bytes_with_fill(first, 8, 0) })
        } else {
            Command::Refused(Refusal::DeleteNeedsKey)
        }
    } else if spells(&command, scan.as_slice()) {
        if !has_first {
            Command::Refused(Refusal::ScanNeedsCursor)
        } else {
            match read_number(first) {
                Some(cursor) => Command::Scan(ScanRequest { cursor }),
                None => Command::Refused(Refusal::ScanCursorNotANumber),
            }
        }
    } else {
        Command::Invalid
    }
}

/// What to tell the user of a command that is refused.
pub fn refusal_message(why: Refusal) -> (text: &'static str)
    ensures
        text@ == spec_refusal_message(why),
{
    match why {
        Refusal::PutNeedsKeyAndValue => "error: Must provide a key and a value",
        Refusal::PutNeedsValue(_) => "error: Must provide a key and a value",
        Refusal::GetNeedsKey => "Get command needs a key argument!",
        Refusal::DeleteNeedsKey => "Delete command needs a key argument!",
        Refusal::ScanCursorNotANumber =>
            "Scan's cursor must be a number! Use 0 if you want to scan from the start.",
        Refusal::ScanNeedsCursor => "Scan needs a cursor! Use 0 if you want to scan from the start.",
    }
}

/// What to tell the user of a command that is refused.
pub open spec fn spec_refusal_message(why: Refusal) -> Seq<char> {
    match why {
        Refusal::PutNeedsKeyAndValue => "error: Must provide a key and a value"@,
        Refusal::PutNeedsValue(_) => "error: Must provide a key and a value"@,
        Refusal::GetNeedsKey => "Get command needs a key argument!"@,
        Refusal::DeleteNeedsKey => "Delete command needs a key argument!"@,
        Refusal::ScanCursorNotANumber =>
            "Scan's cursor must be a number! Use 0 if you want to scan from the start."@,
        Refusal::ScanNeedsCursor => "Scan needs a cursor! Use 0 if you want to scan from the start."@,
    }
}

/// What to warn the user of when the key of a put is not of eight bytes.
pub fn key_warning() -> (text: &'static str)
    ensures
        text@ == "waring: key must be 8 bytes long, will padding/truncate to 8 bytes"@,
{
    "waring: key must be 8 bytes long, will padding/truncate to 8 bytes"
}

/// What to warn the user of when the value of a put is not of 256 bytes.
pub fn value_warning() -> (text: &'static str)
    ensures
        text@ == "waring: value must be 256 bytes long, will padding/truncate to 256 bytes"@,
{
    "waring: value must be 256 bytes long, will padding/truncate to 256 bytes"
}

} // verus!
