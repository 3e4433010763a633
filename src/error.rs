//! Errors of parsing and emitting JSON, with the position where they arose.

use vstd::prelude::*;
use crate::io;
use crate::ser::{format_integer, int_text, lemma_int_text_valid};
use crate::read::{string_from_utf8, lemma_ascii_valid_utf8};
use vstd::utf8::*;
use vstd::string::StringSliceAdditionalSpecFns;

verus! {

/// The broad class of an error.
#[derive(Clone, Copy, Debug, PartialEq, Eq, Structural)]
pub enum Category {
    /// The underlying byte source or sink failed.
    Io,
    /// The input is not JSON.
    Syntax,
    /// The input is JSON, but not of the shape the caller asked for.
    Data,
    /// The input ended in the middle of a value.
    Eof,
}

/// What went wrong.
#[derive(Debug)]
pub enum ErrorCode {
    /// A message from a caller-side data error.
    Message(String),
    /// The byte source or sink failed.
    Io(io::Error),
    EofWhileParsingList,
    EofWhileParsingObject,
    EofWhileParsingString,
    EofWhileParsingValue,
    ExpectedColon,
    ExpectedListCommaOrEnd,
    ExpectedObjectCommaOrEnd,
    ExpectedSomeIdent,
    ExpectedSomeValue,
    InvalidEscape,
    InvalidNumber,
    NumberOutOfRange,
    InvalidUnicodeCodePoint,
    ControlCharacterWhileParsingString,
    KeyMustBeAString,
    LoneLeadingSurrogateInHexEscape,
    TrailingComma,
    TrailingCharacters,
    UnexpectedEndOfHexEscape,
    RecursionLimitExceeded,
}

/// The text that describes an error code.
pub open spec fn message_of(c: ErrorCode) -> Seq<char> {
    match c {
        ErrorCode::Message(m) => m@,
        ErrorCode::Io(_) => "I/O error"@,
        ErrorCode::EofWhileParsingList => "EOF while parsing a list"@,
        ErrorCode::EofWhileParsingObject => "EOF while parsing an object"@,
        ErrorCode::EofWhileParsingString => "EOF while parsing a string"@,
        ErrorCode::EofWhileParsingValue => "EOF while parsing a value"@,
        ErrorCode::ExpectedColon => "expected `:`"@,
        ErrorCode::ExpectedListCommaOrEnd => "expected `,` or `]`"@,
        ErrorCode::ExpectedObjectCommaOrEnd => "expected `,` or `}`"@,
        ErrorCode::ExpectedSomeIdent => "expected ident"@,
        ErrorCode::ExpectedSomeValue => "expected value"@,
        ErrorCode::InvalidEscape => "invalid escape"@,
        ErrorCode::InvalidNumber => "invalid number"@,
        ErrorCode::NumberOutOfRange => "number out of range"@,
        ErrorCode::InvalidUnicodeCodePoint => "invalid unicode code point"@,
        ErrorCode::ControlCharacterWhileParsingString => "control character (\\u0000-\\u001F) found while parsing a string"@,
        ErrorCode::KeyMustBeAString => "key must be a string"@,
        ErrorCode::LoneLeadingSurrogateInHexEscape => "lone leading surrogate in hex escape"@,
        ErrorCode::TrailingComma => "trailing comma"@,
        ErrorCode::TrailingCharacters => "trailing characters"@,
        ErrorCode::UnexpectedEndOfHexEscape => "unexpected end of hex escape"@,
        ErrorCode::RecursionLimitExceeded => "recursion limit exceeded"@,
    }
}

impl ErrorCode {
    /// The text that describes the error, without its position.
    pub fn message(&self) -> (r: &str)
        ensures
            r@ == message_of(*self),
    {
        match self {
            ErrorCode::Message(msg) => msg.as_str(),
            ErrorCode::Io(_) => "I/O error",
            ErrorCode::EofWhileParsingList => "EOF while parsing a list",
            ErrorCode::EofWhileParsingObject => "EOF while parsing an object",
            ErrorCode::EofWhileParsingString => "EOF while parsing a string",
            ErrorCode::EofWhileParsingValue => "EOF while parsing a value",
            ErrorCode::ExpectedColon => "expected `:`",
            ErrorCode::ExpectedListCommaOrEnd => "expected `,` or `]`",
            ErrorCode::ExpectedObjectCommaOrEnd => "expected `,` or `}`",
            ErrorCode::ExpectedSomeIdent => "expected ident",
            ErrorCode::ExpectedSomeValue => "expected value",
            ErrorCode::InvalidEscape => "invalid escape",
            ErrorCode::InvalidNumber => "invalid number",
            ErrorCode::NumberOutOfRange => "number out of range",
            ErrorCode::InvalidUnicodeCodePoint => "invalid unicode code point",
            ErrorCode::ControlCharacterWhileParsingString => {
                "control character (\\u0000-\\u001F) found while parsing a string"
            },
            ErrorCode::KeyMustBeAString => "key must be a string",
            ErrorCode::LoneLeadingSurrogateInHexEscape => "lone leading surrogate in hex escape",
            ErrorCode::TrailingComma => "trailing comma",
            ErrorCode::TrailingCharacters => "trailing characters",
            ErrorCode::UnexpectedEndOfHexEscape => "unexpected end of hex escape",
            ErrorCode::RecursionLimitExceeded => "recursion limit exceeded",
        }
    }
}

/// The category that each error code belongs to.
pub open spec fn category_of(code: ErrorCode) -> Category {
    match code {
        ErrorCode::Message(_) => Category::Data,
        ErrorCode::Io(_) => Category::Io,
        ErrorCode::EofWhileParsingList
        | ErrorCode::EofWhileParsingObject
        | ErrorCode::EofWhileParsingString
        | ErrorCode::EofWhileParsingValue => Category::Eof,
        _ => Category::Syntax,
    }
}

#[derive(Debug)]
struct ErrorImpl {
    code: ErrorCode,
    line: usize,
    column: usize,
}

/// An error of parsing or emitting, with its code and its position in the input
/// (line from 1, column from 0; line 0 when the position is not known).
#[derive(Debug)]
pub struct Error {
    err: Box<ErrorImpl>,
}

pub type Result<T> = core::result::Result<T, Error>;

impl Error {
    pub closed spec fn spec_code(&self) -> ErrorCode {
        self.err.code
    }

    pub closed spec fn spec_line(&self) -> usize {
        self.err.line
    }

    pub closed spec fn spec_column(&self) -> usize {
        self.err.column
    }

    /// The line at which the error was found; the first line is line 1.
    pub fn line(&self) -> (r: usize)
        ensures
            r == self.spec_line(),
    {
        self.err.line
    }

    /// The column at which the error was found; column 0 is just after a newline.
    pub fn column(&self) -> (r: usize)
        ensures
            r == self.spec_column(),
    {
        self.err.column
    }

    /// The code of the error.
    pub fn code(&self) -> (r: &ErrorCode)
        ensures
            *r == self.spec_code(),
    {
        &self.err.code
    }

    /// The class of the cause of this error.
    pub fn classify(&self) -> (r: Category)
        ensures
            r == category_of(self.spec_code()),
    {
        match &self.err.code {
            ErrorCode::Message(_) => Category::Data,
            ErrorCode::Io(_) => Category::Io,
            ErrorCode::EofWhileParsingList
            | ErrorCode::EofWhileParsingObject
            | ErrorCode::EofWhileParsingString
            | ErrorCode::EofWhileParsingValue => Category::Eof,
            ErrorCode::ExpectedColon
            | ErrorCode::ExpectedListCommaOrEnd
            | ErrorCode::ExpectedObjectCommaOrEnd
            | ErrorCode::ExpectedSomeIdent
            | ErrorCode::ExpectedSomeValue
            | ErrorCode::InvalidEscape
            | ErrorCode::InvalidNumber
            | ErrorCode::NumberOutOfRange
            | ErrorCode::InvalidUnicodeCodePoint
            | ErrorCode::ControlCharacterWhileParsingString
            | ErrorCode::KeyMustBeAString
            | ErrorCode::LoneLeadingSurrogateInHexEscape
            | ErrorCode::TrailingComma
            | ErrorCode::TrailingCharacters
            | ErrorCode::UnexpectedEndOfHexEscape
            | ErrorCode::RecursionLimitExceeded => Category::Syntax,
        }
    }

    /// Whether the byte source or sink failed.
    pub fn is_io(&self) -> (r: bool)
        ensures
            r == (category_of(self.spec_code()) == Category::Io),
    {
        self.classify() == Category::Io
    }

    /// Whether the input is not JSON.
    pub fn is_syntax(&self) -> (r: bool)
        ensures
            r == (category_of(self.spec_code()) == Category::Syntax),
    {
        self.classify() == Category::Syntax
    }

    /// Whether the input does not have the shape the caller asked for.
    pub fn is_data(&self) -> (r: bool)
        ensures
            r == (category_of(self.spec_code()) == Category::Data),
    {
        self.classify() == Category::Data
    }

    /// Whether the input ended in the middle of a value.
    pub fn is_eof(&self) -> (r: bool)
        ensures
            r == (category_of(self.spec_code()) == Category::Eof),
    {
        self.classify() == Category::Eof
    }

    /// An error with the given code, found at the given position.
    pub fn syntax(code: ErrorCode, line: usize, column: usize) -> (r: Error)
        ensures
            r.spec_code() == code,
            r.spec_line() == line,
            r.spec_column() == column,
    {
        Error { err: Box::new(ErrorImpl { code, line, column }) }
    }

    /// This error, or, when it has no position, an error with its code at the
    /// given position.
    pub fn fix_position(self, line: usize, column: usize) -> (r: Error)
        ensures
            r.spec_code() == self.spec_code(),
            self.spec_line() == 0 ==> r.spec_line() == line && r.spec_column() == column,
            self.spec_line() != 0 ==> r.spec_line() == self.spec_line() && r.spec_column()
                == self.spec_column(),
    {
        if self.err.line == 0 {
            let ErrorImpl { code, .. } = *self.err;
            Error { err: Box::new(ErrorImpl { code, line, column }) }
        } else {
            self
        }
    }

    /// An error of the byte source or sink, with no position.
    pub fn io(error: io::Error) -> (r: Error)
        ensures
            r.spec_code() == ErrorCode::Io(error),
            r.spec_line() == 0,
            r.spec_column() == 0,
    {
        Error { err: Box::new(ErrorImpl { code: ErrorCode::Io(error), line: 0, column: 0 }) }
    }
}


/// The bytes of ` at line `.
pub open spec fn at_line_bytes() -> Seq<u8> {
    seq![32u8, 97u8, 116u8, 32u8, 108u8, 105u8, 110u8, 101u8, 32u8]
}

/// The bytes of ` column `.
pub open spec fn column_bytes() -> Seq<u8> {
    seq![32u8, 99u8, 111u8, 108u8, 117u8, 109u8, 110u8, 32u8]
}

/// `p` occurs in `m` at offset `i`.
pub open spec fn occurs_at(m: Seq<u8>, p: Seq<u8>, i: int) -> bool {
    0 <= i && i + p.len() <= m.len() && m.subrange(i, i + p.len()) == p
}

/// The last offset at or before `i` where `p` occurs in `m`, or -1.
pub open spec fn rfind_from(m: Seq<u8>, p: Seq<u8>, i: int) -> int
    decreases i + 1,
{
    if i < 0 {
        -1
    } else if occurs_at(m, p, i) {
        i
    } else {
        rfind_from(m, p, i - 1)
    }
}

/// The end of the run of ASCII digits that starts at `i`.
pub open spec fn digits_end(m: Seq<u8>, i: int) -> int
    decreases m.len() - i,
{
    if 0 <= i < m.len() && 48 <= m[i] <= 57 {
        digits_end(m, i + 1)
    } else {
        i
    }
}

/// The value of a run of decimal digits.
pub open spec fn digits_value(d: Seq<u8>) -> nat
    decreases d.len(),
{
    if d.len() == 0 {
        0
    } else {
        digits_value(d.drop_last()) * 10 + (d.last() - 48) as nat
    }
}

/// The line, column and start of a trailing ` at line N column M` in `m`,
/// taking the last ` at line ` in it; `None` unless both numbers are
/// non-empty runs of digits that fit `usize` and nothing follows them.
pub open spec fn line_col_suffix(m: Seq<u8>) -> Option<(nat, nat, int)> {
    let s = rfind_from(m, at_line_bytes(), m.len() - 9);
    let a = s + 9;
    let b = digits_end(m, a);
    let c = b + 8;
    let d = digits_end(m, c);
    if s < 0 || !occurs_at(m, column_bytes(), b) || d < m.len() || a == b || c == d {
        None
    } else if digits_value(m.subrange(a, b)) > usize::MAX || digits_value(m.subrange(c, d))
        > usize::MAX {
        None
    } else {
        Some((digits_value(m.subrange(a, b)), digits_value(m.subrange(c, d)), s))
    }
}

/// Whether `m[i..]` starts with a digit.
fn starts_with_digit(m: &[u8], i: usize) -> (r: bool)
    ensures
        r == (i < m@.len() && 48 <= m@[i as int] <= 57),
{
    i < m.len() && m[i] >= 48 && m[i] <= 57
}

proof fn lemma_rfind_occurs(m: Seq<u8>, p: Seq<u8>, i: int)
    ensures
        rfind_from(m, p, i) >= 0 ==> occurs_at(m, p, rfind_from(m, p, i)) && rfind_from(m, p, i) <= i,
    decreases i + 1,
{
    if i >= 0 && !occurs_at(m, p, i) {
        lemma_rfind_occurs(m, p, i - 1);
    }
}

fn occurs(m: &[u8], p: &[u8], i: usize) -> (r: bool)
    ensures
        r == occurs_at(m@, p@, i as int),
{
    let n = m.len();
    if i > m.len() || p.len() > m.len() - i {
        return false;
    }
    let mut k: usize = 0;
    while k < p.len()
        invariant
            n == m@.len(),
            i + p@.len() <= m@.len(),
            k <= p@.len(),
            forall|t: int| 0 <= t < k ==> m@[i + t] == p@[t],
        decreases p@.len() - k,
    {
        assert(i + k < m@.len());
        if m[i + k] != p[k] {
            assert(m@.subrange(i as int, i + p@.len())[k as int] != p@[k as int]);
            return false;
        }
        k = k + 1;
    }
    assert(m@.subrange(i as int, i + p@.len()) =~= p@);
    true
}

/// Reads a run of digits as a `usize`, failing when it is empty or too large.
fn parse_usize(m: &[u8], a: usize, b: usize) -> (r: Option<usize>)
    requires
        a <= b <= m@.len(),
        forall|t: int| a <= t < b ==> 48 <= #[trigger] m@[t] <= 57,
    ensures
        r == (if a == b || digits_value(m@.subrange(a as int, b as int)) > usize::MAX {
            None
        } else {
            Some(digits_value(m@.subrange(a as int, b as int)) as usize)
        }),
{
    if a == b {
        return None;
    }
    let mut v: usize = 0;
    let mut k: usize = a;
    let mut too_big = false;
    while k < b
        invariant
            a <= k <= b <= m@.len(),
            forall|t: int| a <= t < b ==> 48 <= #[trigger] m@[t] <= 57,
            !too_big ==> v == digits_value(m@.subrange(a as int, k as int)),
            too_big ==> digits_value(m@.subrange(a as int, k as int)) > usize::MAX,
        decreases b - k,
    {
        let d = (m[k] - 48) as usize;
        let ghost prev = m@.subrange(a as int, k as int);
        let ghost next = m@.subrange(a as int, k + 1);
        assert(next.drop_last() =~= prev);
        assert(digits_value(next) == digits_value(prev) * 10 + d);
        if too_big {
            assert(digits_value(next) > usize::MAX) by (nonlinear_arith)
                requires
                    digits_value(prev) > usize::MAX,
                    digits_value(next) == digits_value(prev) * 10 + d,
            ;
        } else if v > (usize::MAX - d) / 10 {
            too_big = true;
            assert(digits_value(next) > usize::MAX) by (nonlinear_arith)
                requires
                    v > (usize::MAX - d) / 10,
                    d <= 9,
                    digits_value(next) == v * 10 + d,
            ;
        } else {
            assert(v * 10 + d <= usize::MAX) by (nonlinear_arith)
                requires
                    v <= (usize::MAX - d) / 10,
                    d <= 9,
            ;
            v = v * 10 + d;
        }
        k = k + 1;
    }
    if too_big {
        None
    } else {
        Some(v)
    }
}

pub proof fn lemma_digits_end(m: Seq<u8>, i: int)
    requires
        0 <= i,
    ensures
        i <= digits_end(m, i),
        digits_end(m, i) <= m.len() || digits_end(m, i) == i,
        forall|t: int| i <= t < digits_end(m, i) ==> 48 <= #[trigger] m[t] <= 57,
    decreases m.len() - i,
{
    if 0 <= i < m.len() && 48 <= m[i] <= 57 {
        lemma_digits_end(m, i + 1);
    }
}

/// The last offset where `p` occurs in `m`.
fn rfind(m: &[u8], p: &[u8]) -> (r: Option<usize>)
    ensures
        match r {
            Some(i) => i == rfind_from(m@, p@, m@.len() - p@.len()) && occurs_at(m@, p@, i as int),
            None => rfind_from(m@, p@, m@.len() - p@.len()) == -1,
        },
{
    if m.len() < p.len() {
        return None;
    }
    let mut i: usize = m.len() - p.len();
    loop
        invariant
            i + p@.len() <= m@.len(),
            rfind_from(m@, p@, m@.len() - p@.len()) == rfind_from(m@, p@, i as int),
        decreases i,
    {
        if occurs(m, p, i) {
            return Some(i);
        }
        if i == 0 {
            assert(rfind_from(m@, p@, -1) == -1);
            return None;
        }
        i = i - 1;
    }
}

/// Finds a trailing ` at line N column M` in a message: the line, the column,
/// and the offset where the suffix starts.
pub fn parse_line_col(msg: &[u8]) -> (r: Option<(usize, usize, usize)>)
    ensures
        match line_col_suffix(msg@) {
            Some((l, c, s)) => r == Some((l as usize, c as usize, s as usize)),
            None => r is None,
        },
{
    let ghost m = msg@;
    let n = msg.len();
    let at_line: [u8; 9] = [32, 97, 116, 32, 108, 105, 110, 101, 32];
    let column: [u8; 8] = [32, 99, 111, 108, 117, 109, 110, 32];
    assert(at_line@ =~= at_line_bytes());
    assert(column@ =~= column_bytes());
    let start_of_suffix = match rfind(msg, at_line.as_slice()) {
        Some(i) => i,
        None => return None,
    };
    proof {
        lemma_rfind_occurs(m, at_line_bytes(), m.len() - 9);
    }
    let start_of_line = start_of_suffix + 9;
    let mut end_of_line = start_of_line;
    proof {
        lemma_digits_end(m, start_of_line as int);
    }
    while starts_with_digit(msg, end_of_line)
        invariant
            start_of_line <= end_of_line <= m.len(),
            n == m.len(),
            msg@ == m,
            digits_end(m, start_of_line as int) == digits_end(m, end_of_line as int),
            forall|t: int| start_of_line <= t < end_of_line ==> 48 <= #[trigger] m[t] <= 57,
        decreases m.len() - end_of_line,
    {
        end_of_line = end_of_line + 1;
    }
    if !occurs(msg, column.as_slice(), end_of_line) {
        return None;
    }
    proof {
        lemma_digits_end(m, start_of_line as int);
    }
    let start_of_column = end_of_line + 8;
    let mut end_of_column = start_of_column;
    while starts_with_digit(msg, end_of_column)
        invariant
            start_of_column <= end_of_column <= m.len(),
            n == m.len(),
            msg@ == m,
            digits_end(m, start_of_column as int) == digits_end(m, end_of_column as int),
            forall|t: int| start_of_column <= t < end_of_column ==> 48 <= #[trigger] m[t] <= 57,
        decreases m.len() - end_of_column,
    {
        end_of_column = end_of_column + 1;
    }
    if end_of_column < msg.len() {
        return None;
    }
    let line = match parse_usize(msg, start_of_line, end_of_line) {
        Some(line) => line,
        None => return None,
    };
    let column = match parse_usize(msg, start_of_column, end_of_column) {
        Some(column) => column,
        None => return None,
    };
    Some((line, column, start_of_suffix))
}

impl Error {
    /// A data error with message `msg`. A trailing ` at line N column M` in
    /// the message is taken off and becomes the error's position; without one,
    /// the position is line 0, column 0.
    pub fn custom(msg: String) -> (r: Error)
        ensures
            category_of(r.spec_code()) == Category::Data,
            match line_col_suffix(encode_utf8(msg@)) {
                Some((l, c, s)) => r.spec_line() == l && r.spec_column() == c && (r.spec_code() matches ErrorCode::Message(t) && encode_utf8(t@) == encode_utf8(msg@).subrange(0, s)),
                None => r.spec_line() == 0 && r.spec_column() == 0 && r.spec_code() == ErrorCode::Message(msg),
            },
    {
        make_error(msg)
    }
}

fn make_error(msg: String) -> (r: Error)
    ensures
        category_of(r.spec_code()) == Category::Data,
        match line_col_suffix(encode_utf8(msg@)) {
            Some((l, c, s)) => r.spec_line() == l && r.spec_column() == c && (r.spec_code() matches ErrorCode::Message(t) && encode_utf8(t@) == encode_utf8(msg@).subrange(0, s)),
            None => r.spec_line() == 0 && r.spec_column() == 0 && r.spec_code() == ErrorCode::Message(msg),
        },
{
    let bytes = msg.as_str().as_bytes();
    assert(bytes@ == encode_utf8(msg@));
    let found = parse_line_col(bytes);
    match found {
        Some((line, column, start)) => {
            let ghost b = encode_utf8(msg@);
            proof {
                encode_utf8_valid_utf8(msg@);
                lemma_rfind_occurs(b, at_line_bytes(), b.len() - 9);
                assert(line_col_suffix(b) is Some);
                let sfx = line_col_suffix(b)->0;
                assert(bytes@.len() == bytes.len());
                assert(start as int == sfx.2);
                assert(sfx.2 == rfind_from(b, at_line_bytes(), b.len() - 9));
                assert(occurs_at(b, at_line_bytes(), start as int));
                assert(at_line_bytes()[0] == 32u8);
                assert(b.subrange(start as int, start + 9)[0] == 32u8);
                assert(b[start as int] == 32u8);
                is_char_boundary_iff_is_leading_byte(b, start as int);
            }
            let (head, _) = msg.as_str().split_at(start);
            let text = head.to_owned();
            Error { err: Box::new(ErrorImpl { code: ErrorCode::Message(text), line, column }) }
        },
        None => Error { err: Box::new(ErrorImpl { code: ErrorCode::Message(msg), line: 0, column: 0 }) },
    }
}


/// The text of an error: its message, then ` at line N column M` when it has
/// a position (line 0 meaning none).
pub open spec fn display_bytes(e: Error) -> Seq<u8> {
    if e.spec_line() == 0 {
        encode_utf8(message_of(e.spec_code()))
    } else {
        encode_utf8(message_of(e.spec_code())) + at_line_bytes() + int_text(e.spec_line() as int)
            + column_bytes() + int_text(e.spec_column() as int)
    }
}

fn push_all(out: &mut Vec<u8>, b: &[u8])
    ensures
        final(out)@ == old(out)@ + b@,
{
    let mut k: usize = 0;
    while k < b.len()
        invariant
            k <= b@.len(),
            out@ == old(out)@ + b@.subrange(0, k as int),
        decreases b@.len() - k,
    {
        out.push(b[k]);
        k = k + 1;
        assert(out@ =~= old(out)@ + b@.subrange(0, k as int));
    }
    assert(b@.subrange(0, b@.len() as int) =~= b@);
}

impl Error {
    /// The text of the error: `<message> at line N column M`, or just the
    /// message when the position is not known.
    pub fn to_string(&self) -> (r: String)
        ensures
            encode_utf8(r@) == display_bytes(*self),
    {
        let mut out: Vec<u8> = Vec::new();
        let msg = self.err.code.message();
        push_all(&mut out, msg.as_bytes());
        if self.err.line != 0 {
            let at_line: [u8; 9] = [32, 97, 116, 32, 108, 105, 110, 101, 32];
            let column: [u8; 8] = [32, 99, 111, 108, 117, 109, 110, 32];
            assert(at_line@ =~= at_line_bytes());
            assert(column@ =~= column_bytes());
            let line_digits = format_integer(self.err.line as i128);
            let column_digits = format_integer(self.err.column as i128);
            push_all(&mut out, at_line.as_slice());
            push_all(&mut out, line_digits.as_slice());
            push_all(&mut out, column.as_slice());
            push_all(&mut out, column_digits.as_slice());
        }
        let ghost bytes = out@;
        proof {
            encode_utf8_valid_utf8(message_of(self.err.code));
            if self.err.line != 0 {
                let m = encode_utf8(message_of(self.err.code));
                let l = int_text(self.err.line as int);
                let c = int_text(self.err.column as int);
                lemma_ascii_seq_valid(at_line_bytes());
                lemma_ascii_seq_valid(column_bytes());
                lemma_int_text_valid(self.err.line as int);
                lemma_int_text_valid(self.err.column as int);
                valid_utf8_concat(m, at_line_bytes());
                valid_utf8_concat(m + at_line_bytes(), l);
                valid_utf8_concat(m + at_line_bytes() + l, column_bytes());
                valid_utf8_concat(m + at_line_bytes() + l + column_bytes(), c);
                assert(bytes =~= display_bytes(*self));
            } else {
                assert(bytes =~= display_bytes(*self));
            }
        }
        match string_from_utf8(out) {
            Some(text) => text,
            None => String::new(),
        }
    }
}

proof fn lemma_ascii_seq_valid(b: Seq<u8>)
    requires
        forall|i: int| 0 <= i < b.len() ==> b[i] < 0x80,
    ensures
        valid_utf8(b),
{
    lemma_ascii_valid_utf8(b);
}

} // verus!
