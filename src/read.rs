//! Byte sources for the parser, and the decoding of JSON string bodies.

use vstd::prelude::*;
use vstd::utf8::*;
use vstd::slice::slice_subrange;
use vstd::string::StringSliceAdditionalSpecFns;
use crate::error::{Error, ErrorCode, Result};
use crate::iter::{LineColIterator, line_at, column_at, lemma_line_column_bounds};

verus! {

pub const QUOTE: u8 = 34;
pub const BACKSLASH: u8 = 92;
pub const SLASH: u8 = 47;
pub const LOWER_B: u8 = 98;
pub const LOWER_F: u8 = 102;
pub const LOWER_N: u8 = 110;
pub const LOWER_R: u8 = 114;
pub const LOWER_T: u8 = 116;
pub const LOWER_U: u8 = 117;

/// A line (from 1) and a column (from 0) in the input.
#[derive(Clone, Copy, Debug, PartialEq, Eq, Structural)]
pub struct Position {
    pub line: usize,
    pub column: usize,
}

/// Where the content of a parsed string lies: in the input itself, between two
/// offsets, or in the scratch buffer that the caller handed in.
#[derive(Clone, Copy, Debug, PartialEq, Eq, Structural)]
pub enum Reference {
    Borrowed { start: usize, end: usize },
    Copied,
}

/// `e` has code `code` and the position of offset `at` of `s`.
pub open spec fn error_at(e: Error, s: Seq<u8>, code: ErrorCode, at: int) -> bool {
    &&& e.spec_code() == code
    &&& e.spec_line() == line_at(s, at)
    &&& e.spec_column() == column_at(s, at)
}

/// The outcome of scanning part of the input: the bytes it stands for and the
/// offset after it, or an error code and the offset at which it was found.
pub enum Scan {
    Done { out: Seq<u8>, next: int },
    Fail { code: ErrorCode, at: int },
}

pub open spec fn prepend(p: Seq<u8>, r: Scan) -> Scan {
    match r {
        Scan::Done { out, next } => Scan::Done { out: p + out, next },
        Scan::Fail { code, at } => Scan::Fail { code, at },
    }
}

pub proof fn lemma_prepend_prepend(a: Seq<u8>, b: Seq<u8>, r: Scan)
    ensures
        prepend(a, prepend(b, r)) == prepend(a + b, r),
{
    match r {
        Scan::Done { out, next } => {
            assert(a + (b + out) =~= (a + b) + out);
        },
        Scan::Fail { .. } => {},
    }
}

/// The value of a hexadecimal digit (either case).
pub open spec fn hex_val(b: u8) -> Option<u16> {
    if 48 <= b <= 57 {
        Some((b - 48) as u16)
    } else if 65 <= b <= 70 {
        Some((b - 55) as u16)
    } else if 97 <= b <= 102 {
        Some((b - 87) as u16)
    } else {
        None
    }
}

/// The outcome of reading four hex digits.
pub enum Hex {
    Value(u16),
    Fail { code: ErrorCode, at: int },
}

/// Reads hex digits `k..4` of the escape at `j`, with `acc` the value of the
/// digits before.
pub open spec fn hex_from(s: Seq<u8>, j: int, k: int, acc: int) -> Hex
    decreases 4 - k,
{
    if k >= 4 {
        Hex::Value(acc as u16)
    } else if j + k >= s.len() {
        Hex::Fail { code: ErrorCode::EofWhileParsingString, at: s.len() as int }
    } else {
        match hex_val(s[j + k]) {
            None => Hex::Fail { code: ErrorCode::InvalidEscape, at: j + k + 1 },
            Some(v) => hex_from(s, j, k + 1, acc * 16 + v),
        }
    }
}

/// Reads the four hex digits of a `\u` escape that start at `j`. A source held in
/// memory reports a short input before looking at the digits.
pub open spec fn hex_spec(s: Seq<u8>, j: int, in_memory: bool) -> Hex {
    if in_memory && j + 4 > s.len() {
        Hex::Fail { code: ErrorCode::EofWhileParsingString, at: s.len() as int }
    } else {
        hex_from(s, j, 0, 0)
    }
}

/// The UTF-8 form of a UTF-16 code unit or scalar: its encoding when it is a
/// scalar, else the three-byte form of a lone surrogate.
pub open spec fn unit_utf8(n: u32) -> Seq<u8> {
    if is_scalar(n) {
        encode_scalar(n)
    } else {
        seq![leading_byte_width_3(n), second_last_continuation_byte(n), last_continuation_byte(n)]
    }
}

/// The code point of a surrogate pair.
pub open spec fn pair_code_point(hi: u16, lo: u16) -> u32 {
    ((hi - 0xD800) * 1024 + (lo - 0xDC00) + 0x10000) as u32
}

/// The single byte that a one-character escape stands for.
pub open spec fn simple_escape(c: u8) -> Option<u8> {
    if c == QUOTE {
        Some(QUOTE)
    } else if c == BACKSLASH {
        Some(BACKSLASH)
    } else if c == SLASH {
        Some(SLASH)
    } else if c == LOWER_B {
        Some(8u8)
    } else if c == LOWER_F {
        Some(12u8)
    } else if c == LOWER_N {
        Some(10u8)
    } else if c == LOWER_R {
        Some(13u8)
    } else if c == LOWER_T {
        Some(9u8)
    } else {
        None
    }
}

/// Decodes the escape whose backslash stands just before offset `i`. With
/// `validate`, lone surrogates are errors; without, they are kept in the
/// three-byte form.
pub open spec fn escape_spec(s: Seq<u8>, i: int, validate: bool, in_memory: bool) -> Scan
    decreases s.len() - i,
{
    if i >= s.len() {
        Scan::Fail { code: ErrorCode::EofWhileParsingString, at: s.len() as int }
    } else if simple_escape(s[i]) is Some {
        Scan::Done { out: seq![simple_escape(s[i])->0], next: i + 1 }
    } else if s[i] != LOWER_U {
        Scan::Fail { code: ErrorCode::InvalidEscape, at: i + 1 }
    } else {
        match hex_spec(s, i + 1, in_memory) {
            Hex::Fail { code, at } => Scan::Fail { code, at },
            Hex::Value(n) => {
                let k = i + 5;
                if 0xDC00 <= n <= 0xDFFF {
                    if validate {
                        Scan::Fail { code: ErrorCode::LoneLeadingSurrogateInHexEscape, at: k }
                    } else {
                        Scan::Done { out: unit_utf8(n as u32), next: k }
                    }
                } else if 0xD800 <= n <= 0xDBFF {
                    if k >= s.len() {
                        Scan::Fail { code: ErrorCode::EofWhileParsingString, at: s.len() as int }
                    } else if s[k] != BACKSLASH {
                        if validate {
                            Scan::Fail { code: ErrorCode::UnexpectedEndOfHexEscape, at: k + 1 }
                        } else {
                            Scan::Done { out: unit_utf8(n as u32), next: k }
                        }
                    } else if k + 1 >= s.len() {
                        Scan::Fail { code: ErrorCode::EofWhileParsingString, at: s.len() as int }
                    } else if s[k + 1] != LOWER_U {
                        if validate {
                            Scan::Fail { code: ErrorCode::UnexpectedEndOfHexEscape, at: k + 2 }
                        } else {
                            prepend(unit_utf8(n as u32), escape_spec(s, k + 1, validate, in_memory))
                        }
                    } else {
                        match hex_spec(s, k + 2, in_memory) {
                            Hex::Fail { code, at } => Scan::Fail { code, at },
                            Hex::Value(n2) => {
                                if n2 < 0xDC00 || n2 > 0xDFFF {
                                    Scan::Fail {
                                        code: ErrorCode::LoneLeadingSurrogateInHexEscape,
                                        at: k + 6,
                                    }
                                } else {
                                    Scan::Done {
                                        out: encode_scalar(pair_code_point(n, n2)),
                                        next: k + 6,
                                    }
                                }
                            },
                        }
                    }
                } else {
                    Scan::Done { out: unit_utf8(n as u32), next: k }
                }
            },
        }
    }
}

/// Decodes a string body from offset `i` (just after the opening quote) up to
/// and including the closing quote. Without `validate`, control bytes are
/// kept as they are.
pub open spec fn str_spec(s: Seq<u8>, i: int, validate: bool, in_memory: bool) -> Scan
    decreases s.len() - i,
{
    if i < 0 || i >= s.len() {
        Scan::Fail { code: ErrorCode::EofWhileParsingString, at: s.len() as int }
    } else if s[i] == QUOTE {
        Scan::Done { out: Seq::empty(), next: i + 1 }
    } else if s[i] == BACKSLASH {
        match escape_spec(s, i + 1, validate, in_memory) {
            Scan::Fail { code, at } => Scan::Fail { code, at },
            Scan::Done { out, next } => {
                if i < next <= s.len() {
                    prepend(out, str_spec(s, next, validate, in_memory))
                } else {
                    Scan::Fail { code: ErrorCode::InvalidEscape, at: next }
                }
            },
        }
    } else if s[i] < 0x20 {
        Scan::Fail { code: ErrorCode::ControlCharacterWhileParsingString, at: i + 1 }
    } else {
        prepend(seq![s[i]], str_spec(s, i + 1, validate, in_memory))
    }
}

/// `str_spec`, followed, with `validate`, by the check that the content is
/// UTF-8.
pub open spec fn str_outcome(s: Seq<u8>, i: int, validate: bool, in_memory: bool) -> Scan {
    match str_spec(s, i, validate, in_memory) {
        Scan::Done { out, next } => {
            if validate && !valid_utf8(out) {
                Scan::Fail { code: ErrorCode::InvalidUnicodeCodePoint, at: next }
            } else {
                Scan::Done { out, next }
            }
        },
        Scan::Fail { code, at } => Scan::Fail { code, at },
    }
}

/// Skips the escape whose backslash stands just before offset `i`, without
/// decoding it.
pub open spec fn skip_escape_spec(s: Seq<u8>, i: int, in_memory: bool) -> Scan {
    if i >= s.len() {
        Scan::Fail { code: ErrorCode::EofWhileParsingString, at: s.len() as int }
    } else if simple_escape(s[i]) is Some {
        Scan::Done { out: Seq::empty(), next: i + 1 }
    } else if s[i] != LOWER_U {
        Scan::Fail { code: ErrorCode::InvalidEscape, at: i + 1 }
    } else {
        match hex_spec(s, i + 1, in_memory) {
            Hex::Fail { code, at } => Scan::Fail { code, at },
            Hex::Value(_) => Scan::Done { out: Seq::empty(), next: i + 5 },
        }
    }
}

/// Skips a string body from offset `i` without keeping it. A source held in
/// memory reports a control byte at its own offset, a stream just after it.
pub open spec fn ignore_spec(s: Seq<u8>, i: int, in_memory: bool) -> Scan
    decreases s.len() - i,
{
    if i < 0 || i >= s.len() {
        Scan::Fail { code: ErrorCode::EofWhileParsingString, at: s.len() as int }
    } else if s[i] == QUOTE {
        Scan::Done { out: Seq::empty(), next: i + 1 }
    } else if s[i] == BACKSLASH {
        match skip_escape_spec(s, i + 1, in_memory) {
            Scan::Fail { code, at } => Scan::Fail { code, at },
            Scan::Done { out, next } => {
                if i < next <= s.len() {
                    ignore_spec(s, next, in_memory)
                } else {
                    Scan::Fail { code: ErrorCode::EofWhileParsingString, at: s.len() as int }
                }
            },
        }
    } else if s[i] < 0x20 {
        Scan::Fail {
            code: ErrorCode::ControlCharacterWhileParsingString,
            at: i + 1,
        }
    } else {
        ignore_spec(s, i + 1, in_memory)
    }
}

/// A successful string parse borrows from the input exactly when the source
/// holds the input in memory and the string has no escape; a borrowed string is
/// `s[i0..off - 1]`, where `off` is just past the closing quote.
pub open spec fn borrow_rule(r: Result<Reference>, s: Seq<u8>, i0: int, off: int, in_memory: bool) -> bool {
    r matches Ok(rf) ==> {
        &&& (rf is Borrowed <==> in_memory && escape_free(s, i0, off - 1))
        &&& (rf matches Reference::Borrowed { start, end } ==> start == i0 && end == off - 1)
    }
}

/// Where `position` stands right after looking at the byte at offset `k`:
/// there for a source in memory, just past it for a stream.
pub open spec fn peeked_at(k: int, in_memory: bool) -> int {
    if in_memory {
        k
    } else {
        k + 1
    }
}

/// No backslash stands in `s[i..j]`.
pub open spec fn escape_free(s: Seq<u8>, i: int, j: int) -> bool {
    forall|k: int| i <= k < j ==> s[k] != BACKSLASH
}

/// The content that a successful parse of a string hands back.
pub open spec fn content_of(r: Reference, s: Seq<u8>, scratch: Seq<u8>) -> Seq<u8> {
    match r {
        Reference::Borrowed { start, end } => s.subrange(start as int, end as int),
        Reference::Copied => scratch,
    }
}

/// `r` is the result that the outcome `o` of a string scan calls for, with
/// `off` the offset of the source afterwards.
pub open spec fn str_result_matches(
    r: Result<Reference>,
    s: Seq<u8>,
    scratch: Seq<u8>,
    off: int,
    o: Scan,
) -> bool {
    match o {
        Scan::Done { out, next } => {
            &&& r is Ok
            &&& content_of(r->Ok_0, s, scratch) == out
            &&& off == next
            &&& r->Ok_0 matches Reference::Borrowed { start, end } ==> start <= end <= s.len()
        },
        Scan::Fail { code, at } => r is Err && error_at(r->Err_0, s, code, at),
    }
}

/// `r` is the result that the outcome `o` of skipping a string calls for.
pub open spec fn ignore_result_matches(r: Result<()>, s: Seq<u8>, off: int, o: Scan) -> bool {
    match o {
        Scan::Done { out, next } => r is Ok && off == next,
        Scan::Fail { code, at } => r is Err && error_at(r->Err_0, s, code, at),
    }
}

/// The byte-level operations of a JSON source. `input` is everything the
/// source holds, `offset` the offset of the next byte that `next` or `peek`
/// hands out, and `cursor` the offset whose position `position` reports.
pub trait Source: Sized {
    spec fn input(&self) -> Seq<u8>;

    spec fn offset(&self) -> int;

    spec fn cursor(&self) -> int;

    /// The offset whose position `peek_position` reports.
    spec fn peek_cursor(&self) -> int;

    /// A peeked byte may be discarded.
    spec fn can_discard(&self) -> bool;

    /// The whole input is at hand (rather than read as a stream).
    spec fn in_memory() -> bool;

    spec fn well_formed(&self) -> bool;

    proof fn lemma_bounds(&self)
        requires
            self.well_formed(),
        ensures
            0 <= self.offset() <= self.cursor() <= self.input().len() < usize::MAX,
            0 <= self.peek_cursor() <= self.input().len(),
            self.can_discard() ==> self.offset() < self.input().len(),
    ;

    /// Hands out the next byte, or `None` at the end.
    fn next(&mut self) -> (r: Result<Option<u8>>)
        requires
            old(self).well_formed(),
        ensures
            final(self).well_formed(),
            final(self).input() == old(self).input(),
            final(self).cursor() == final(self).offset(),
            r is Ok,
            old(self).offset() < old(self).input().len() ==> r->Ok_0 == Some(
                old(self).input()[old(self).offset()],
            ) && final(self).offset() == old(self).offset() + 1,
            old(self).offset() >= old(self).input().len() ==> r->Ok_0 is None && final(self).offset() == old(self).offset(),
    ;

    /// Looks at the next byte without handing it out.
    fn peek(&mut self) -> (r: Result<Option<u8>>)
        requires
            old(self).well_formed(),
        ensures
            final(self).well_formed(),
            final(self).input() == old(self).input(),
            final(self).offset() == old(self).offset(),
            r is Ok,
            old(self).offset() < old(self).input().len() ==> r->Ok_0 == Some(
                old(self).input()[old(self).offset()],
            ) && final(self).can_discard() && final(self).peek_cursor() == final(self).offset() + 1
                && final(self).cursor() == peeked_at(final(self).offset(), Self::in_memory()),
            old(self).offset() >= old(self).input().len() ==> r->Ok_0 is None && final(self).cursor() == final(self).offset(),
    ;

    /// Drops the byte that `peek` just looked at.
    fn discard(&mut self)
        requires
            old(self).well_formed(),
            old(self).can_discard(),
        ensures
            final(self).well_formed(),
            final(self).input() == old(self).input(),
            final(self).offset() == old(self).offset() + 1,
            final(self).cursor() == final(self).offset(),
    ;

    /// The position of the last byte handed out.
    fn position(&self) -> (r: Position)
        requires
            self.well_formed(),
        ensures
            r.line == line_at(self.input(), self.cursor()),
            r.column == column_at(self.input(), self.cursor()),
    ;

    /// The position of the last byte looked at.
    fn peek_position(&self) -> (r: Position)
        requires
            self.well_formed(),
        ensures
            r.line == line_at(self.input(), self.peek_cursor()),
            r.column == column_at(self.input(), self.peek_cursor()),
    ;

    /// The offset of the next byte.
    fn byte_offset(&self) -> (r: usize)
        requires
            self.well_formed(),
        ensures
            r == self.offset(),
    ;


    /// Reads the four hex digits of a `\u` escape.
    fn decode_hex_escape(&mut self) -> (r: Result<u16>)
        requires
            old(self).well_formed(),
        ensures
            final(self).well_formed(),
            final(self).input() == old(self).input(),
            final(self).cursor() == final(self).offset(),
            match hex_spec(old(self).input(), old(self).offset(), Self::in_memory()) {
                Hex::Value(n) => r is Ok && r->Ok_0 == n && final(self).offset() == old(self).offset() + 4,
                Hex::Fail { code, at } => r is Err && error_at(
                    r->Err_0,
                    old(self).input(),
                    code,
                    at,
                ),
            },
    ;
}

/// A source of JSON for the parser: the byte operations, and the decoding of
/// string bodies.
pub trait Read: Source {
    /// Parses a string body (the opening quote already read) into UTF-8
    /// content.
    fn parse_str(&mut self, scratch: &mut Vec<u8>) -> (r: Result<Reference>)
        requires
            old(self).well_formed(),
        ensures
            final(self).well_formed(),
            final(self).input() == old(self).input(),
            str_result_matches(
                r,
                old(self).input(),
                final(scratch)@,
                final(self).offset(),
                str_outcome(old(self).input(), old(self).offset(), true, Self::in_memory()),
            ),
            borrow_rule(r, old(self).input(), old(self).offset(), final(self).offset(), Self::in_memory()),
    ;

    /// Parses a string body into raw bytes, keeping control bytes and lone
    /// surrogates.
    fn parse_str_raw(&mut self, scratch: &mut Vec<u8>) -> (r: Result<Reference>)
        requires
            old(self).well_formed(),
        ensures
            final(self).well_formed(),
            final(self).input() == old(self).input(),
            str_result_matches(
                r,
                old(self).input(),
                final(scratch)@,
                final(self).offset(),
                str_outcome(old(self).input(), old(self).offset(), false, Self::in_memory()),
            ),
            borrow_rule(r, old(self).input(), old(self).offset(), final(self).offset(), Self::in_memory()),
    ;

    /// Skips a string body.
    fn ignore_str(&mut self) -> (r: Result<()>)
        requires
            old(self).well_formed(),
        ensures
            final(self).well_formed(),
            final(self).input() == old(self).input(),
            ignore_result_matches(
                r,
                old(self).input(),
                final(self).offset(),
                ignore_spec(old(self).input(), old(self).offset(), Self::in_memory()),
            ),
    ;

    /// The content of a parsed string, copied out.
    fn copy_content(&self, r: Reference, scratch: &Vec<u8>) -> (out: Vec<u8>)
        requires
            self.well_formed(),
            r matches Reference::Borrowed { start, end } ==> start <= end <= self.input().len(),
        ensures
            out@ == content_of(r, self.input(), scratch@),
    ;

    /// Stops the source for good after a failure: either by setting `failed`,
    /// or by cutting the input at the current offset.
    fn set_failed(&mut self, failed: &mut bool)
        requires
            old(self).well_formed(),
        ensures
            final(self).well_formed(),
            final(self).offset() == old(self).offset(),
            *final(failed) || final(self).input() == old(self).input().subrange(
                0,
                old(self).offset(),
            ),
    ;
}

/// A byte that ends the plain run of a string: a quote, a backslash or a
/// control byte.
pub open spec fn is_special(b: u8) -> bool {
    b == QUOTE || b == BACKSLASH || b < 0x20
}

fn needs_escape(b: u8) -> (r: bool)
    ensures
        r == is_special(b),
{
    b == QUOTE || b == BACKSLASH || b < 0x20
}

/// The value of a hex digit, if `val` is one.
pub fn decode_hex_val(val: u8) -> (r: Option<u16>)
    ensures
        r == hex_val(val),
{
    if 48 <= val && val <= 57 {
        Some((val - 48) as u16)
    } else if 65 <= val && val <= 70 {
        Some((val - 55) as u16)
    } else if 97 <= val && val <= 102 {
        Some((val - 87) as u16)
    } else {
        None
    }
}

fn error<R: Source>(read: &R, code: ErrorCode) -> (e: Error)
    requires
        read.well_formed(),
    ensures
        error_at(e, read.input(), code, read.cursor()),
{
    let position = read.position();
    proof {
        read.lemma_bounds();
    }
    Error::syntax(code, position.line, position.column)
}

fn next_or_eof<R: Source>(read: &mut R) -> (r: Result<u8>)
    requires
        old(read).well_formed(),
    ensures
        final(read).well_formed(),
        final(read).input() == old(read).input(),
        final(read).cursor() == final(read).offset(),
        old(read).offset() < old(read).input().len() ==> r is Ok && r->Ok_0 == old(read).input()[old(read).offset()] && final(read).offset() == old(read).offset() + 1,
        old(read).offset() >= old(read).input().len() ==> r is Err && error_at(
            r->Err_0,
            old(read).input(),
            ErrorCode::EofWhileParsingString,
            old(read).input().len() as int,
        ),
{
    proof {
        old(read).lemma_bounds();
    }
    match read.next() {
        Ok(Some(b)) => Ok(b),
        _ => {
            proof {
                read.lemma_bounds();
            }
            Err(error(read, ErrorCode::EofWhileParsingString))
        },
    }
}

fn peek_or_eof<R: Source>(read: &mut R) -> (r: Result<u8>)
    requires
        old(read).well_formed(),
    ensures
        final(read).well_formed(),
        final(read).input() == old(read).input(),
        final(read).offset() == old(read).offset(),
        old(read).offset() < old(read).input().len() ==> r is Ok && r->Ok_0 == old(read).input()[old(read).offset()] && final(read).can_discard(),
        old(read).offset() >= old(read).input().len() ==> r is Err && error_at(
            r->Err_0,
            old(read).input(),
            ErrorCode::EofWhileParsingString,
            old(read).input().len() as int,
        ),
{
    proof {
        old(read).lemma_bounds();
    }
    match read.peek() {
        Ok(Some(b)) => Ok(b),
        _ => {
            proof {
                read.lemma_bounds();
            }
            Err(error(read, ErrorCode::EofWhileParsingString))
        },
    }
}

/// Appends the UTF-8 form of a code unit or scalar.
pub(crate) fn push_utf8(scratch: &mut Vec<u8>, n: u32)
    requires
        n <= 0x10FFFF,
    ensures
        final(scratch)@ == old(scratch)@ + unit_utf8(n),
{
    if n <= 0x7F {
        scratch.push((n & 0x7F) as u8);
    } else if n <= 0x7FF {
        scratch.push(0xC0 | ((n >> 6) & 0x1F) as u8);
        scratch.push(0x80 | (n & 0x3F) as u8);
    } else if n <= 0xFFFF {
        scratch.push(0xE0 | ((n >> 12) & 0x0F) as u8);
        scratch.push(0x80 | ((n >> 6) & 0x3F) as u8);
        scratch.push(0x80 | (n & 0x3F) as u8);
    } else {
        scratch.push(0xF0 | ((n >> 18) & 0x7) as u8);
        scratch.push(0x80 | ((n >> 12) & 0x3F) as u8);
        scratch.push(0x80 | ((n >> 6) & 0x3F) as u8);
        scratch.push(0x80 | (n & 0x3F) as u8);
    }
    assert(final(scratch)@ =~= old(scratch)@ + unit_utf8(n));
}



fn simple_escape_byte(c: u8) -> (r: Option<u8>)
    ensures
        r == simple_escape(c),
{
    if c == QUOTE {
        Some(QUOTE)
    } else if c == BACKSLASH {
        Some(BACKSLASH)
    } else if c == SLASH {
        Some(SLASH)
    } else if c == LOWER_B {
        Some(8u8)
    } else if c == LOWER_F {
        Some(12u8)
    } else if c == LOWER_N {
        Some(10u8)
    } else if c == LOWER_R {
        Some(13u8)
    } else if c == LOWER_T {
        Some(9u8)
    } else {
        None
    }
}

pub proof fn lemma_escape_nonempty(s: Seq<u8>, i: int, validate: bool, in_memory: bool)
    ensures
        escape_spec(s, i, validate, in_memory) matches Scan::Done { out, next } ==> out.len() > 0,
    decreases s.len() - i,
{
    if i < s.len() && simple_escape(s[i]) is None && s[i] == LOWER_U {
        if let Hex::Value(n) = hex_spec(s, i + 1, in_memory) {
            let k = i + 5;
            if 0xD800 <= n <= 0xDBFF && k + 1 < s.len() && s[k] == BACKSLASH && s[k + 1]
                != LOWER_U && !validate {
                lemma_escape_nonempty(s, k + 1, validate, in_memory);
            }
        }
    }
}

/// Decodes an escape (the backslash already read) and appends the bytes it
/// stands for to `scratch`.
fn parse_escape<R: Source>(read: &mut R, validate: bool, scratch: &mut Vec<u8>) -> (r: Result<()>)
    requires
        old(read).well_formed(),
    ensures
        final(read).well_formed(),
        final(read).input() == old(read).input(),
        match escape_spec(old(read).input(), old(read).offset(), validate, R::in_memory()) {
            Scan::Done { out, next } => r is Ok && final(scratch)@ == old(scratch)@ + out
                && final(read).offset() == next && next > old(read).offset(),
            Scan::Fail { code, at } => r is Err && error_at(r->Err_0, old(read).input(), code, at),
        },
        r is Err ==> final(scratch)@ == old(scratch)@,
    decreases old(read).input().len() - old(read).offset(),
{
    let ghost s = read.input();
    let ghost i = read.offset();
    proof {
        read.lemma_bounds();
    }
    let ch = match next_or_eof(read) {
        Ok(c) => c,
        Err(e) => return Err(e),
    };
    if let Some(b) = simple_escape_byte(ch) {
        scratch.push(b);
        return Ok(());
    }
    if ch != LOWER_U {
        return Err(error(read, ErrorCode::InvalidEscape));
    }
    let n = match read.decode_hex_escape() {
        Ok(n) => n,
        Err(e) => return Err(e),
    };
    proof {
        read.lemma_bounds();
    }
    if 0xDC00 <= n && n <= 0xDFFF {
        if validate {
            return Err(error(read, ErrorCode::LoneLeadingSurrogateInHexEscape));
        } else {
            push_utf8(scratch, n as u32);
            return Ok(());
        }
    }
    if 0xD800 <= n && n <= 0xDBFF {
        let c1 = match peek_or_eof(read) {
            Ok(c) => c,
            Err(e) => return Err(e),
        };
        if c1 != BACKSLASH {
            if validate {
                read.discard();
                return Err(error(read, ErrorCode::UnexpectedEndOfHexEscape));
            } else {
                push_utf8(scratch, n as u32);
                return Ok(());
            }
        }
        read.discard();
        let c2 = match peek_or_eof(read) {
            Ok(c) => c,
            Err(e) => return Err(e),
        };
        if c2 != LOWER_U {
            if validate {
                read.discard();
                return Err(error(read, ErrorCode::UnexpectedEndOfHexEscape));
            } else {
                let mut tail: Vec<u8> = Vec::new();
                let r = parse_escape(read, validate, &mut tail);
                if r.is_ok() {
                    push_utf8(scratch, n as u32);
                    extend_bytes(scratch, tail.as_slice(), 0, tail.len());
                    proof {
                        if let Scan::Done { out, next } = escape_spec(s, i + 6, validate, R::in_memory()) {
                            assert(tail@.subrange(0, tail@.len() as int) =~= out);
                            assert(scratch@ =~= old(scratch)@ + (unit_utf8(n as u32) + out));
                        }
                    }
                }
                return r;
            }
        }
        read.discard();
        let n2 = match read.decode_hex_escape() {
            Ok(n2) => n2,
            Err(e) => return Err(e),
        };
        if n2 < 0xDC00 || n2 > 0xDFFF {
            return Err(error(read, ErrorCode::LoneLeadingSurrogateInHexEscape));
        }
        let c = ((n - 0xD800) as u32) * 1024 + ((n2 - 0xDC00) as u32) + 0x10000;
        assert(c == pair_code_point(n, n2));
        push_utf8(scratch, c);
        return Ok(());
    }
    push_utf8(scratch, n as u32);
    Ok(())
}

/// Skips an escape (the backslash already read).
fn ignore_escape<R: Source>(read: &mut R) -> (r: Result<()>)
    requires
        old(read).well_formed(),
    ensures
        final(read).well_formed(),
        final(read).input() == old(read).input(),
        match skip_escape_spec(old(read).input(), old(read).offset(), R::in_memory()) {
            Scan::Done { out, next } => r is Ok && final(read).offset() == next,
            Scan::Fail { code, at } => r is Err && error_at(r->Err_0, old(read).input(), code, at),
        },
{
    proof {
        read.lemma_bounds();
    }
    let ch = match next_or_eof(read) {
        Ok(c) => c,
        Err(e) => return Err(e),
    };
    if simple_escape_byte(ch).is_some() {
        return Ok(());
    }
    if ch != LOWER_U {
        return Err(error(read, ErrorCode::InvalidEscape));
    }
    match read.decode_hex_escape() {
        Ok(_) => Ok(()),
        Err(e) => Err(e),
    }
}

/// Relies on `core::str::from_utf8`, which succeeds exactly on valid UTF-8.
#[verifier::external_body]
fn is_valid_utf8(bytes: &[u8]) -> (r: bool)
    ensures
        r == valid_utf8(bytes@),
{
    core::str::from_utf8(bytes).is_ok()
}

/// Relies on `String::from_utf8`, which succeeds exactly on valid UTF-8 and
/// keeps the bytes.
#[verifier::external_body]
pub(crate) fn string_from_utf8(bytes: Vec<u8>) -> (r: Option<String>)
    ensures
        r is Some <==> valid_utf8(bytes@),
        r matches Some(s) ==> encode_utf8(s@) == bytes@,
{
    String::from_utf8(bytes).ok()
}

/// Appends `src[a..b]` to `dst`.
pub(crate) fn extend_bytes(dst: &mut Vec<u8>, src: &[u8], a: usize, b: usize)
    requires
        a <= b <= src@.len(),
    ensures
        final(dst)@ == old(dst)@ + src@.subrange(a as int, b as int),
{
    let mut k = a;
    while k < b
        invariant
            a <= k <= b <= src@.len(),
            dst@ == old(dst)@ + src@.subrange(a as int, k as int),
        decreases b - k,
    {
        dst.push(src[k]);
        k = k + 1;
        assert(dst@ =~= old(dst)@ + src@.subrange(a as int, k as int));
    }
}


/// A source that reads JSON from a byte slice; strings without escapes are
/// handed back as ranges of the slice.
pub struct SliceRead<'a> {
    slice: &'a [u8],
    index: usize,
}

impl<'a> SliceRead<'a> {
    pub fn new(slice: &'a [u8]) -> (r: SliceRead<'a>)
        requires
            slice@.len() < usize::MAX,
        ensures
            r.well_formed(),
            r.input() == slice@,
            r.offset() == 0,
            r.cursor() == 0,
    {
        SliceRead { slice, index: 0 }
    }

    fn position_of_index(&self, i: usize) -> (r: Position)
        requires
            i <= self.slice@.len() < usize::MAX,
        ensures
            r.line == line_at(self.slice@, i as int),
            r.column == column_at(self.slice@, i as int),
    {
        let mut position = Position { line: 1, column: 0 };
        let mut k: usize = 0;
        while k < i
            invariant
                k <= i <= self.slice@.len() < usize::MAX,
                position.line == line_at(self.slice@, k as int),
                position.column == column_at(self.slice@, k as int),
            decreases i - k,
        {
            proof {
                lemma_line_column_bounds(self.slice@, k as int);
            }
            if self.slice[k] == 10u8 {
                position.line = position.line + 1;
                position.column = 0;
            } else {
                position.column = position.column + 1;
            }
            k = k + 1;
        }
        position
    }

    fn fail(&self, code: ErrorCode) -> (e: Error)
        requires
            self.index <= self.slice@.len() < usize::MAX,
        ensures
            error_at(e, self.slice@, code, self.index as int),
    {
        let position = self.position_of_index(self.index);
        proof {
            lemma_line_column_bounds(self.slice@, self.index as int);
        }
        Error::syntax(code, position.line, position.column)
    }

    fn parse_str_bytes(&mut self, scratch: &mut Vec<u8>, validate: bool) -> (r: Result<Reference>)
        requires
            old(self).well_formed(),
        ensures
            final(self).well_formed(),
            final(self).input() == old(self).input(),
            str_result_matches(
                r,
                old(self).input(),
                final(scratch)@,
                final(self).offset(),
                str_outcome(old(self).input(), old(self).offset(), validate, true),
            ),
            borrow_rule(r, old(self).input(), old(self).offset(), final(self).offset(), true),
    {
        let ghost s = self.slice@;
        let ghost i0 = self.index as int;
        scratch.clear();
        let mut start = self.index;
        assert(scratch@ + s.subrange(start as int, start as int) =~= Seq::<u8>::empty());
        assert(prepend(Seq::empty(), str_spec(s, i0, validate, true)) == str_spec(s, i0, validate, true)) by {
            match str_spec(s, i0, validate, true) {
                Scan::Done { out, next } => { assert(Seq::<u8>::empty() + out =~= out); },
                _ => {},
            }
        }
        loop
            invariant
                self.well_formed(),
                self.slice@ == s,
                s == old(self).slice@,
                i0 == old(self).index,
                i0 <= start <= self.index <= s.len(),
                str_spec(s, i0, validate, true) == prepend(
                    scratch@ + s.subrange(start as int, self.index as int),
                    str_spec(s, self.index as int, validate, true),
                ),
                scratch@.len() == 0 ==> start == i0,
                scratch@.len() == 0 <==> escape_free(s, i0, self.index as int),
            decreases s.len() - self.index,
        {
            let ghost round = self.index;
            while self.index < self.slice.len() && !needs_escape(self.slice[self.index])
                invariant
                    round <= self.index,
                    self.well_formed(),
                    self.slice@ == s,
                    s == old(self).slice@,
                    i0 == old(self).index,
                    i0 <= start <= self.index <= s.len(),
                    str_spec(s, i0, validate, true) == prepend(
                        scratch@ + s.subrange(start as int, self.index as int),
                        str_spec(s, self.index as int, validate, true),
                    ),
                    scratch@.len() == 0 ==> start == i0,
                    scratch@.len() == 0 <==> escape_free(s, i0, self.index as int),
                scratch@.len() == 0 <==> escape_free(s, i0, self.index as int),
                decreases s.len() - self.index,
            {
                let ghost j = self.index as int;
                proof {
                    lemma_prepend_prepend(
                        scratch@ + s.subrange(start as int, j),
                        seq![s[j]],
                        str_spec(s, j + 1, validate, true),
                    );
                    assert(scratch@ + s.subrange(start as int, j) + seq![s[j]] =~= scratch@
                        + s.subrange(start as int, j + 1));
                }
                self.index = self.index + 1;
            }
            if self.index == self.slice.len() {
                return Err(error(self, ErrorCode::EofWhileParsingString));
            }
            let ghost j = self.index as int;
            let ch = self.slice[self.index];
            if ch == QUOTE {
                assert(str_spec(s, j, validate, true) == Scan::Done { out: Seq::<u8>::empty(), next: j + 1 });
                assert(scratch@ + s.subrange(start as int, j) + Seq::<u8>::empty() =~= scratch@ + s.subrange(start as int, j));
                if scratch.is_empty() {
                    let end = self.index;
                    self.index = self.index + 1;
                    assert(scratch@ + s.subrange(start as int, j) =~= s.subrange(start as int, j));
                    if validate && !is_valid_utf8(slice_subrange(self.slice, start, end)) {
                        return Err(error(self, ErrorCode::InvalidUnicodeCodePoint));
                    }
                    return Ok(Reference::Borrowed { start, end });
                } else {
                    extend_bytes(scratch, self.slice, start, self.index);
                    self.index = self.index + 1;
                    if validate && !is_valid_utf8(scratch.as_slice()) {
                        return Err(error(self, ErrorCode::InvalidUnicodeCodePoint));
                    }
                    return Ok(Reference::Copied);
                }
            } else if ch == BACKSLASH {
                extend_bytes(scratch, self.slice, start, self.index);
                self.index = self.index + 1;
                let ghost before = scratch@;
                proof {
                    lemma_escape_nonempty(s, j + 1, validate, true);
                }
                match parse_escape(self, validate, scratch) {
                    Ok(()) => {},
                    Err(e) => return Err(e),
                }
                proof {
                    self.lemma_bounds();
                    if let Scan::Done { out, next } = escape_spec(s, j + 1, validate, true) {
                        lemma_prepend_prepend(before, out, str_spec(s, next, validate, true));
                        assert(scratch@ + s.subrange(self.index as int, self.index as int) =~= before + out);
                    }
                }
                start = self.index;
            } else {
                self.index = self.index + 1;
                return Err(error(self, ErrorCode::ControlCharacterWhileParsingString));
            }
        }
    }
}

impl<'a> Source for SliceRead<'a> {
    closed spec fn input(&self) -> Seq<u8> {
        self.slice@
    }

    closed spec fn offset(&self) -> int {
        self.index as int
    }

    closed spec fn cursor(&self) -> int {
        self.index as int
    }

    closed spec fn peek_cursor(&self) -> int {
        if self.index + 1 <= self.slice@.len() {
            self.index + 1
        } else {
            self.slice@.len() as int
        }
    }

    closed spec fn can_discard(&self) -> bool {
        self.index < self.slice@.len()
    }

    open spec fn in_memory() -> bool {
        true
    }

    closed spec fn well_formed(&self) -> bool {
        self.index <= self.slice@.len() < usize::MAX
    }

    proof fn lemma_bounds(&self) {
    }

    fn next(&mut self) -> (r: Result<Option<u8>>) {
        if self.index < self.slice.len() {
            let ch = self.slice[self.index];
            self.index = self.index + 1;
            Ok(Some(ch))
        } else {
            Ok(None)
        }
    }

    fn peek(&mut self) -> (r: Result<Option<u8>>) {
        if self.index < self.slice.len() {
            Ok(Some(self.slice[self.index]))
        } else {
            Ok(None)
        }
    }

    fn discard(&mut self) {
        self.index = self.index + 1;
    }

    fn position(&self) -> (r: Position) {
        self.position_of_index(self.index)
    }

    fn peek_position(&self) -> (r: Position) {
        let i = if self.index < self.slice.len() {
            self.index + 1
        } else {
            self.slice.len()
        };
        self.position_of_index(i)
    }

    fn byte_offset(&self) -> (r: usize) {
        self.index
    }

    fn decode_hex_escape(&mut self) -> (r: Result<u16>) {
        let ghost s = self.slice@;
        let ghost j = self.index as int;
        if self.slice.len() < 4 || self.index > self.slice.len() - 4 {
            self.index = self.slice.len();
            return Err(self.fail(ErrorCode::EofWhileParsingString));
        }
        let mut n: u16 = 0;
        let mut k: usize = 0;
        while k < 4
            invariant
                self.well_formed(),
                self.slice@ == s,
                s == old(self).slice@,
                j == old(self).index,
                j + 4 <= s.len(),
                0 <= k <= 4,
                self.index == j + k,
                n < (if k == 0 { 1int } else if k == 1 { 16 } else if k == 2 { 256 } else if k == 3 { 4096 } else { 65536 }),
                hex_spec(s, j, true) == hex_from(s, j, k as int, n as int),
            decreases 4 - k,
        {
            let ch = decode_hex_val(self.slice[self.index]);
            self.index = self.index + 1;
            match ch {
                None => return Err(self.fail(ErrorCode::InvalidEscape)),
                Some(val) => {
                    n = n * 16 + val;
                },
            }
            k = k + 1;
        }
        Ok(n)
    }
}

impl<'a> Read for SliceRead<'a> {
    fn copy_content(&self, r: Reference, scratch: &Vec<u8>) -> (out: Vec<u8>) {
        let mut out: Vec<u8> = Vec::new();
        match r {
            Reference::Borrowed { start, end } => extend_bytes(&mut out, self.slice, start, end),
            Reference::Copied => extend_bytes(&mut out, scratch.as_slice(), 0, scratch.len()),
        }
        assert(out@ =~= content_of(r, self.input(), scratch@));
        out
    }

    fn parse_str(&mut self, scratch: &mut Vec<u8>) -> (r: Result<Reference>) {
        self.parse_str_bytes(scratch, true)
    }

    fn parse_str_raw(&mut self, scratch: &mut Vec<u8>) -> (r: Result<Reference>) {
        self.parse_str_bytes(scratch, false)
    }

    fn ignore_str(&mut self) -> (r: Result<()>) {
        let ghost s = self.slice@;
        let ghost i0 = self.index as int;
        loop
            invariant
                self.well_formed(),
                self.slice@ == s,
                s == old(self).slice@,
                i0 == old(self).index,
                i0 <= self.index <= s.len(),
                ignore_spec(s, i0, true) == ignore_spec(s, self.index as int, true),
            decreases s.len() - self.index,
        {
            let ghost round = self.index;
            while self.index < self.slice.len() && !needs_escape(self.slice[self.index])
                invariant
                    round <= self.index,
                    self.well_formed(),
                    self.slice@ == s,
                    s == old(self).slice@,
                    i0 == old(self).index,
                    i0 <= self.index <= s.len(),
                    ignore_spec(s, i0, true) == ignore_spec(s, self.index as int, true),
                decreases s.len() - self.index,
            {
                self.index = self.index + 1;
            }
            if self.index == self.slice.len() {
                return Err(error(self, ErrorCode::EofWhileParsingString));
            }
            let ch = self.slice[self.index];
            if ch == QUOTE {
                self.index = self.index + 1;
                return Ok(());
            } else if ch == BACKSLASH {
                self.index = self.index + 1;
                match ignore_escape(self) {
                    Ok(()) => {},
                    Err(e) => return Err(e),
                }
            } else {
                self.index = self.index + 1;
                return Err(error(self, ErrorCode::ControlCharacterWhileParsingString));
            }
        }
    }

    fn set_failed(&mut self, _failed: &mut bool) {
        self.slice = slice_subrange(self.slice, 0, self.index);
    }
}



/// A source that reads JSON from a string; it works as a slice source over the
/// string's bytes.
pub struct StrRead<'a> {
    delegate: SliceRead<'a>,
}

impl<'a> StrRead<'a> {
    pub fn new(s: &'a str) -> (r: StrRead<'a>)
        requires
            s.spec_bytes().len() < usize::MAX,
        ensures
            r.well_formed(),
            r.input() == s.spec_bytes(),
            r.offset() == 0,
            r.cursor() == 0,
    {
        StrRead { delegate: SliceRead::new(s.as_bytes()) }
    }
}

impl<'a> Source for StrRead<'a> {
    closed spec fn input(&self) -> Seq<u8> {
        self.delegate.input()
    }

    closed spec fn offset(&self) -> int {
        self.delegate.offset()
    }

    closed spec fn cursor(&self) -> int {
        self.delegate.cursor()
    }

    closed spec fn peek_cursor(&self) -> int {
        self.delegate.peek_cursor()
    }

    closed spec fn can_discard(&self) -> bool {
        self.delegate.can_discard()
    }

    open spec fn in_memory() -> bool {
        true
    }

    closed spec fn well_formed(&self) -> bool {
        self.delegate.well_formed()
    }

    proof fn lemma_bounds(&self) {
        self.delegate.lemma_bounds();
    }

    fn next(&mut self) -> (r: Result<Option<u8>>) {
        self.delegate.next()
    }

    fn peek(&mut self) -> (r: Result<Option<u8>>) {
        self.delegate.peek()
    }

    fn discard(&mut self) {
        self.delegate.discard()
    }

    fn position(&self) -> (r: Position) {
        self.delegate.position()
    }

    fn peek_position(&self) -> (r: Position) {
        self.delegate.peek_position()
    }

    fn byte_offset(&self) -> (r: usize) {
        self.delegate.byte_offset()
    }

    fn decode_hex_escape(&mut self) -> (r: Result<u16>) {
        self.delegate.decode_hex_escape()
    }
}

impl<'a> Read for StrRead<'a> {
    fn copy_content(&self, r: Reference, scratch: &Vec<u8>) -> (out: Vec<u8>) {
        self.delegate.copy_content(r, scratch)
    }

    fn parse_str(&mut self, scratch: &mut Vec<u8>) -> (r: Result<Reference>) {
        self.delegate.parse_str(scratch)
    }

    fn parse_str_raw(&mut self, scratch: &mut Vec<u8>) -> (r: Result<Reference>) {
        self.delegate.parse_str_raw(scratch)
    }

    fn ignore_str(&mut self) -> (r: Result<()>) {
        self.delegate.ignore_str()
    }

    fn set_failed(&mut self, failed: &mut bool) {
        self.delegate.set_failed(failed)
    }
}

/// A source that reads JSON from the bytes of a stream, one at a time; strings
/// are always copied into the scratch buffer.
pub struct IoRead {
    iter: LineColIterator,
    /// The byte that `peek` took from the stream and `next` has not handed out.
    ch: Option<u8>,
}

impl IoRead {
    pub fn new(bytes: Vec<u8>) -> (r: IoRead)
        requires
            bytes@.len() < usize::MAX,
        ensures
            r.well_formed(),
            r.input() == bytes@,
            r.offset() == 0,
            r.cursor() == 0,
    {
        IoRead { iter: LineColIterator::new(bytes), ch: None }
    }

    fn fail(&self, code: ErrorCode) -> (e: Error)
        requires
            self.iter.well_formed(),
        ensures
            error_at(e, self.iter.input(), code, self.iter.consumed()),
    {
        Error::syntax(code, self.iter.line(), self.iter.col())
    }

    fn next_byte(&mut self) -> (r: Option<u8>)
        requires
            old(self).well_formed(),
        ensures
            final(self).well_formed(),
            final(self).input() == old(self).input(),
            final(self).cursor() == final(self).offset(),
            old(self).offset() < old(self).input().len() ==> r == Some(
                old(self).input()[old(self).offset()],
            ) && final(self).offset() == old(self).offset() + 1,
            old(self).offset() >= old(self).input().len() ==> r is None && final(self).offset()
                == old(self).offset(),
    {
        proof {
            self.iter.lemma_bounds();
        }
        match self.ch {
            Some(c) => {
                self.ch = None;
                Some(c)
            },
            None => self.iter.next(),
        }
    }
}

impl Source for IoRead {
    closed spec fn input(&self) -> Seq<u8> {
        self.iter.input()
    }

    closed spec fn offset(&self) -> int {
        if self.ch is Some {
            self.iter.consumed() - 1
        } else {
            self.iter.consumed()
        }
    }

    closed spec fn cursor(&self) -> int {
        self.iter.consumed()
    }

    closed spec fn peek_cursor(&self) -> int {
        self.iter.consumed()
    }

    closed spec fn can_discard(&self) -> bool {
        self.ch is Some
    }

    open spec fn in_memory() -> bool {
        false
    }

    closed spec fn well_formed(&self) -> bool {
        &&& self.iter.well_formed()
        &&& self.ch is Some ==> self.iter.consumed() >= 1 && self.ch->0 == self.iter.input()[self.iter.consumed() - 1]
    }

    proof fn lemma_bounds(&self) {
        self.iter.lemma_bounds();
    }

    fn next(&mut self) -> (r: Result<Option<u8>>) {
        Ok(self.next_byte())
    }

    fn peek(&mut self) -> (r: Result<Option<u8>>) {
        proof {
            self.iter.lemma_bounds();
        }
        match self.ch {
            Some(c) => Ok(Some(c)),
            None => {
                proof {
                    self.iter.lemma_bounds();
                }
                match self.iter.next() {
                    Some(c) => {
                        self.ch = Some(c);
                        Ok(Some(c))
                    },
                    None => Ok(None),
                }
            },
        }
    }

    fn discard(&mut self) {
        self.ch = None;
    }

    fn position(&self) -> (r: Position) {
        Position { line: self.iter.line(), column: self.iter.col() }
    }

    fn peek_position(&self) -> (r: Position) {
        self.position()
    }

    fn byte_offset(&self) -> (r: usize) {
        match self.ch {
            Some(_) => self.iter.byte_offset() - 1,
            None => self.iter.byte_offset(),
        }
    }

    fn decode_hex_escape(&mut self) -> (r: Result<u16>) {
        let ghost s = self.input();
        let ghost j = self.offset();
        let mut n: u16 = 0;
        let mut k: usize = 0;
        while k < 4
            invariant
                self.well_formed(),
                self.input() == s,
                s == old(self).input(),
                j == old(self).offset(),
                0 <= k <= 4,
                self.offset() == j + k,
                self.cursor() == self.offset() || k == 0 && self.cursor() == old(self).cursor(),
                n < (if k == 0 { 1int } else if k == 1 { 16 } else if k == 2 { 256 } else if k == 3 { 4096 } else { 65536 }),
                hex_spec(s, j, false) == hex_from(s, j, k as int, n as int),
            decreases 4 - k,
        {
            proof {
                self.iter.lemma_bounds();
            }
            let nb = self.next_byte();
            proof {
                self.iter.lemma_bounds();
            }
            match nb {
                None => return Err(self.fail(ErrorCode::EofWhileParsingString)),
                Some(b) => match decode_hex_val(b) {
                    None => return Err(self.fail(ErrorCode::InvalidEscape)),
                    Some(val) => {
                        n = n * 16 + val;
                    },
                },
            }
            k = k + 1;
        }
        Ok(n)
    }
}

impl IoRead {
    fn parse_str_bytes(&mut self, scratch: &mut Vec<u8>, validate: bool) -> (r: Result<Reference>)
        requires
            old(self).well_formed(),
        ensures
            final(self).well_formed(),
            final(self).input() == old(self).input(),
            r is Ok ==> r->Ok_0 == Reference::Copied,
            str_result_matches(
                r,
                old(self).input(),
                final(scratch)@,
                final(self).offset(),
                str_outcome(old(self).input(), old(self).offset(), validate, false),
            ),
    {
        let ghost s = self.input();
        let ghost i0 = self.offset();
        proof {
            self.lemma_bounds();
        }
        scratch.clear();
        assert(prepend(Seq::empty(), str_spec(s, i0, validate, false)) == str_spec(s, i0, validate, false)) by {
            match str_spec(s, i0, validate, false) {
                Scan::Done { out, next } => { assert(Seq::<u8>::empty() + out =~= out); },
                _ => {},
            }
        }
        loop
            invariant
                self.well_formed(),
                self.input() == s,
                s == old(self).input(),
                i0 == old(self).offset(),
                i0 <= self.offset() <= s.len(),
                str_spec(s, i0, validate, false) == prepend(
                    scratch@,
                    str_spec(s, self.offset(), validate, false),
                ),
            decreases s.len() - self.offset(),
        {
            proof {
                self.lemma_bounds();
            }
            let ghost j = self.offset();
            let nb = self.next_byte();
            proof {
                self.lemma_bounds();
                self.iter.lemma_bounds();
            }
            let ch = match nb {
                Some(c) => c,
                None => return Err(self.fail(ErrorCode::EofWhileParsingString)),
            };
            if !needs_escape(ch) {
                proof {
                    lemma_prepend_prepend(scratch@, seq![ch], str_spec(s, j + 1, validate, false));
                    assert(s[j] == ch);
                    assert(str_spec(s, j, validate, false) == prepend(seq![ch], str_spec(s, j + 1, validate, false)));
                }
                let ghost before = scratch@;
                scratch.push(ch);
                assert(scratch@ =~= before + seq![ch]);
                assert(self.offset() == j + 1);
                assert(str_spec(s, i0, validate, false) == prepend(scratch@, str_spec(s, self.offset(), validate, false)));
            } else if ch == QUOTE {
                assert(scratch@ + Seq::<u8>::empty() =~= scratch@);
                if validate && !is_valid_utf8(scratch.as_slice()) {
                    return Err(self.fail(ErrorCode::InvalidUnicodeCodePoint));
                }
                return Ok(Reference::Copied);
            } else if ch == BACKSLASH {
                let ghost before = scratch@;
                match parse_escape(self, validate, scratch) {
                    Ok(()) => {},
                    Err(e) => return Err(e),
                }
                proof {
                    self.lemma_bounds();
                    assert(s[j] == BACKSLASH);
                    if let Scan::Done { out, next } = escape_spec(s, j + 1, validate, false) {
                        assert(j < next <= s.len());
                        assert(str_spec(s, j, validate, false) == prepend(out, str_spec(s, next, validate, false)));
                        lemma_prepend_prepend(before, out, str_spec(s, next, validate, false));
                    } else {
                        assert(false);
                    }
                    assert(str_spec(s, i0, validate, false) == prepend(scratch@, str_spec(s, self.offset(), validate, false)));
                }
            } else {
                return Err(self.fail(ErrorCode::ControlCharacterWhileParsingString));
            }
        }
    }
}

impl Read for IoRead {
    fn copy_content(&self, r: Reference, scratch: &Vec<u8>) -> (out: Vec<u8>) {
        let mut out: Vec<u8> = Vec::new();
        match r {
            Reference::Borrowed { start, end } => extend_bytes(&mut out, self.iter.bytes(), start, end),
            Reference::Copied => extend_bytes(&mut out, scratch.as_slice(), 0, scratch.len()),
        }
        assert(out@ =~= content_of(r, self.input(), scratch@));
        out
    }

    fn parse_str(&mut self, scratch: &mut Vec<u8>) -> (r: Result<Reference>) {
        self.parse_str_bytes(scratch, true)
    }

    fn parse_str_raw(&mut self, scratch: &mut Vec<u8>) -> (r: Result<Reference>) {
        self.parse_str_bytes(scratch, false)
    }

    fn ignore_str(&mut self) -> (r: Result<()>) {
        let ghost s = self.input();
        let ghost i0 = self.offset();
        proof {
            self.lemma_bounds();
        }
        loop
            invariant
                self.well_formed(),
                self.input() == s,
                s == old(self).input(),
                i0 == old(self).offset(),
                i0 <= self.offset() <= s.len(),
                ignore_spec(s, i0, false) == ignore_spec(s, self.offset(), false),
            decreases s.len() - self.offset(),
        {
            proof {
                self.lemma_bounds();
            }
            let nb = self.next_byte();
            proof {
                self.lemma_bounds();
                self.iter.lemma_bounds();
            }
            let ch = match nb {
                Some(c) => c,
                None => return Err(self.fail(ErrorCode::EofWhileParsingString)),
            };
            if ch == QUOTE {
                return Ok(());
            } else if ch == BACKSLASH {
                match ignore_escape(self) {
                    Ok(()) => {},
                    Err(e) => return Err(e),
                }
                proof {
                    self.lemma_bounds();
                }
            } else if ch < 0x20 {
                return Err(self.fail(ErrorCode::ControlCharacterWhileParsingString));
            }
        }
    }

    fn set_failed(&mut self, failed: &mut bool) {
        *failed = true;
    }
}


pub proof fn lemma_hex_from_bounds(s: Seq<u8>, j: int, k: int, acc: int)
    requires
        0 <= j,
        0 <= k,
    ensures
        hex_from(s, j, k, acc) is Value ==> k >= 4 || j + 4 <= s.len(),
        hex_from(s, j, k, acc) matches Hex::Fail { at, .. } ==> 0 <= at <= s.len(),
    decreases 4 - k,
{
    if k < 4 && j + k < s.len() {
        if let Some(v) = hex_val(s[j + k]) {
            lemma_hex_from_bounds(s, j, k + 1, acc * 16 + v);
        }
    }
}

pub proof fn lemma_hex_bounds(s: Seq<u8>, j: int, in_memory: bool)
    requires
        0 <= j,
    ensures
        hex_spec(s, j, in_memory) is Value ==> j + 4 <= s.len(),
        hex_spec(s, j, in_memory) matches Hex::Fail { at, .. } ==> 0 <= at <= s.len(),
{
    lemma_hex_from_bounds(s, j, 0, 0);
}

pub proof fn lemma_escape_bounds(s: Seq<u8>, i: int, validate: bool, in_memory: bool)
    requires
        0 <= i,
    ensures
        escape_spec(s, i, validate, in_memory) matches Scan::Done { next, .. } ==> i < next <= s.len(),
        escape_spec(s, i, validate, in_memory) matches Scan::Fail { at, .. } ==> 0 <= at <= s.len(),
    decreases s.len() - i,
{
    if i < s.len() && simple_escape(s[i]) is None && s[i] == LOWER_U {
        lemma_hex_bounds(s, i + 1, in_memory);
        if let Hex::Value(n) = hex_spec(s, i + 1, in_memory) {
            let k = i + 5;
            if 0xD800 <= n <= 0xDBFF && k + 1 < s.len() && s[k] == BACKSLASH {
                if s[k + 1] != LOWER_U {
                    lemma_escape_bounds(s, k + 1, validate, in_memory);
                } else {
                    lemma_hex_bounds(s, k + 2, in_memory);
                }
            }
        }
    }
}

pub proof fn lemma_str_bounds(s: Seq<u8>, i: int, validate: bool, in_memory: bool)
    requires
        0 <= i,
    ensures
        str_spec(s, i, validate, in_memory) matches Scan::Done { next, .. } ==> i < next <= s.len(),
        str_spec(s, i, validate, in_memory) matches Scan::Fail { at, .. } ==> 0 <= at <= s.len(),
        str_outcome(s, i, validate, in_memory) matches Scan::Done { next, .. } ==> i < next <= s.len(),
        str_outcome(s, i, validate, in_memory) matches Scan::Fail { at, .. } ==> 0 <= at <= s.len(),
    decreases s.len() - i,
{
    if 0 <= i < s.len() {
        if s[i] == BACKSLASH {
            lemma_escape_bounds(s, i + 1, validate, in_memory);
            if let Scan::Done { out, next } = escape_spec(s, i + 1, validate, in_memory) {
                if i < next <= s.len() {
                    lemma_str_bounds(s, next, validate, in_memory);
                }
            }
        } else if s[i] != QUOTE {
            lemma_str_bounds(s, i + 1, validate, in_memory);
        }
    }
}

/// Bytes below 0x80 are valid UTF-8.
pub proof fn lemma_ascii_valid_utf8(b: Seq<u8>)
    requires
        forall|i: int| 0 <= i < b.len() ==> b[i] < 0x80,
    ensures
        valid_utf8(b),
    decreases b.len(),
{
    if b.len() > 0 {
        let b0 = b[0];
        assert((b0 & 0x7f) as u32 <= 0x7f) by (bit_vector);
        let rest = b.subrange(1, b.len() as int);
        lemma_ascii_valid_utf8(rest);
        assert(pop_first_scalar(b) =~= rest);
    }
}

} // verus!
