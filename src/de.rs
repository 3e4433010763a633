//! The parser: recursive descent over a byte source into a `Value`.

use vstd::prelude::*;
use crate::error::{Error, ErrorCode, Result, digits_value, digits_end, lemma_digits_end};
use crate::iter::{line_at, column_at, lemma_line_column_bounds};
use crate::map::JsonMap;
use crate::read::{
    Read, Source, SliceRead, StrRead, IoRead, Reference, Scan, error_at, str_outcome,
    lemma_str_bounds, lemma_ascii_valid_utf8, string_from_utf8, peeked_at, str_spec, hex_spec, hex_val, Hex,
    unit_utf8, hex_from, prepend,
};
use vstd::utf8::*;
use crate::value::{Number, Value};
use crate::grammar::{
    Json, JNum, PRes, num_of, json_of, number_spec, value_spec, array_spec, items_spec, object_spec,
    entries_spec, parse_outcome, keyword_spec, ident_err, depth_limit, ws_end, lemma_ws_end, is_ws,
    json_items, json_entries, json_insert, lemma_json_items_push, lemma_json_insert,
};
use crate::ser::{
    compact, decimal, int_text, number_text, lemma_run_one, lemma_run_step, lemma_run_concat, run_text,
    run_state, contents_events, escape_of, escape_text, hex_digit, CharEscape, CompactFormatter, Event,
};
use vstd::string::StringSliceAdditionalSpecFns;

verus! {

/// The deepest nesting of arrays and objects that the parser accepts.
pub const RECURSION_LIMIT: u8 = 128;

/// The line and column of `e` are those of some offset of `s` (up to its end).
pub open spec fn positioned(e: Error, s: Seq<u8>) -> bool {
    exists|at: int|
        0 <= at <= s.len() && #[trigger] line_at(s, at) == e.spec_line() && column_at(s, at)
            == e.spec_column()
}

proof fn lemma_positioned(e: Error, s: Seq<u8>, at: int)
    requires
        0 <= at <= s.len(),
        e.spec_line() == line_at(s, at),
        e.spec_column() == column_at(s, at),
    ensures
        positioned(e, s),
{
}

/// Where the run of digits of an integer token at `i` starts (after an
/// optional minus sign).
pub open spec fn int_digits_start(s: Seq<u8>, i: int) -> int {
    if 0 <= i < s.len() && s[i] == 45 {
        i + 1
    } else {
        i
    }
}

/// Where the integer token at `i` ends.
pub open spec fn int_token_end(s: Seq<u8>, i: int) -> int {
    digits_end(s, int_digits_start(s, i))
}

/// At offset `i` stands an integer: an optional minus sign, then digits
/// without a leading zero (unless the digits are just `0`), not followed by a
/// fraction or an exponent.
pub open spec fn plain_int(s: Seq<u8>, i: int) -> bool {
    let a = int_digits_start(s, i);
    let b = digits_end(s, a);
    &&& 0 <= i
    &&& a < b
    &&& (s[a] != 48 || b == a + 1)
    &&& !(b < s.len() && (s[b] == 46 || s[b] == 101 || s[b] == 69))
}

/// The number that the integer token at `i` stands for, or `None` when it does
/// not fit its 64-bit form.
pub open spec fn int_result(s: Seq<u8>, i: int) -> Option<Number> {
    let a = int_digits_start(s, i);
    let v = digits_value(s.subrange(a, digits_end(s, a)));
    if a == i {
        if v <= u64::MAX {
            Some(Number::PosInt(v as u64))
        } else {
            None
        }
    } else if v == 0 {
        Some(Number::PosInt(0))
    } else if v <= 0x8000_0000_0000_0000 {
        Some(Number::NegInt((-v) as i64))
    } else {
        None
    }
}

/// What parsing the whole of `s` gives when `s` is an integer token.
pub open spec fn int_parse_outcome(s: Seq<u8>) -> Option<Option<Number>> {
    if plain_int(s, 0) && int_token_end(s, 0) == s.len() {
        Some(int_result(s, 0))
    } else {
        None
    }
}

/// `r` is what parsing an integer token whose outcome is `o` gives.
pub open spec fn int_parse_matches(r: Result<Value>, o: Option<Number>) -> bool {
    match o {
        Some(n) => r is Ok && r->Ok_0 == Value::Number(n),
        None => r is Err,
    }
}

/// The bytes `lit` stand at offset `i` of `s`.
pub open spec fn literal_at(s: Seq<u8>, i: int, lit: Seq<u8>) -> bool {
    0 <= i && i + lit.len() <= s.len() && s.subrange(i, i + lit.len()) == lit
}

proof fn lemma_literal_tail(s: Seq<u8>, i: int, lit: Seq<u8>)
    requires
        lit.len() >= 1,
    ensures
        literal_at(s, i, lit) ==> s[i] == lit[0] && s.subrange(i + 1, i + lit.len()) == lit.subrange(
            1,
            lit.len() as int,
        ),
{
    if literal_at(s, i, lit) {
        assert(s[i] == s.subrange(i, i + lit.len())[0]);
        assert(s.subrange(i + 1, i + lit.len()) =~= s.subrange(i, i + lit.len()).subrange(1, lit.len() as int));
    }
}

/// A whole input that is `null`, `true`, `false` or a string (with nothing
/// around it), as the value it stands for; the string as its UTF-8 bytes.
pub enum Scalar {
    Null,
    Bool(bool),
    Str(Seq<u8>),
}

pub open spec fn scalar_outcome(s: Seq<u8>, in_memory: bool) -> Option<Scalar> {
    if s == seq![110u8, 117u8, 108u8, 108u8] {
        Some(Scalar::Null)
    } else if s == seq![116u8, 114u8, 117u8, 101u8] {
        Some(Scalar::Bool(true))
    } else if s == seq![102u8, 97u8, 108u8, 115u8, 101u8] {
        Some(Scalar::Bool(false))
    } else if s.len() > 0 && s[0] == 34 {
        match str_outcome(s, 1, true, in_memory) {
            Scan::Done { out, next } => if next == s.len() {
                Some(Scalar::Str(out))
            } else {
                None
            },
            Scan::Fail { .. } => None,
        }
    } else {
        None
    }
}

pub open spec fn same_scalar(x: Value, v: Scalar) -> bool {
    match v {
        Scalar::Null => x == Value::Null,
        Scalar::Bool(b) => x == Value::Bool(b),
        Scalar::Str(bytes) => x matches Value::String(t) && crate::map::key_bytes(t@) == bytes,
    }
}

/// `r` is the number that the outcome `o` calls for, with `off` the offset
/// afterwards.
pub open spec fn num_matches(r: Result<Number>, off: int, s: Seq<u8>, o: PRes) -> bool {
    match o {
        PRes::Value { v, next } => (r matches Ok(n) && Json::Num(num_of(n)) == v) && off == next,
        PRes::Fail { code, at } => r is Err && error_at(r->Err_0, s, code, at),
    }
}

/// `r` is the value that the outcome `o` calls for, with `off` the offset
/// afterwards.
pub open spec fn pres_matches(r: Result<Value>, off: int, s: Seq<u8>, o: PRes) -> bool {
    match o {
        PRes::Value { v, next } => (r matches Ok(x) && json_of(x) == v) && off == next,
        PRes::Fail { code, at } => r is Err && error_at(r->Err_0, s, code, at),
    }
}

/// `r` is the result of parsing a whole input that the outcome `o` calls for.
pub open spec fn outcome_matches(r: Result<Value>, s: Seq<u8>, o: PRes) -> bool {
    match o {
        PRes::Value { v, next } => r matches Ok(x) && json_of(x) == v,
        PRes::Fail { code, at } => r is Err && error_at(r->Err_0, s, code, at),
    }
}

/// Parses JSON text from a byte source.
pub struct Deserializer<R> {
    read: R,
    scratch: Vec<u8>,
    remaining_depth: u8,
}

impl<R: Read> Deserializer<R> {
    pub closed spec fn input(&self) -> Seq<u8> {
        self.read.input()
    }

    pub closed spec fn offset(&self) -> int {
        self.read.offset()
    }

    pub closed spec fn well_formed(&self) -> bool {
        self.read.well_formed()
    }

    /// How many more levels of nesting are allowed.
    pub closed spec fn remaining(&self) -> u8 {
        self.remaining_depth
    }

    /// A parser over `read`, which allows nesting up to the recursion limit.
    pub fn new(read: R) -> (r: Self)
        requires
            read.well_formed(),
        ensures
            r.well_formed(),
            r.input() == read.input(),
            r.offset() == read.offset(),
            r.remaining() == RECURSION_LIMIT,
    {
        Deserializer { read, scratch: Vec::new(), remaining_depth: RECURSION_LIMIT }
    }

    fn error(&self, code: ErrorCode) -> (e: Error)
        requires
            self.read.well_formed(),
        ensures
            e.spec_code() == code,
            error_at(e, self.read.input(), code, self.read.cursor()),
            positioned(e, self.read.input()),
    {
        let p = self.read.position();
        proof {
            self.read.lemma_bounds();
            lemma_line_column_bounds(self.read.input(), self.read.cursor());
        }
        let e = Error::syntax(code, p.line, p.column);
        proof {
            lemma_positioned(e, self.read.input(), self.read.cursor());
        }
        e
    }

    fn peek_error(&self, code: ErrorCode) -> (e: Error)
        requires
            self.read.well_formed(),
        ensures
            e.spec_code() == code,
            error_at(e, self.read.input(), code, self.read.peek_cursor()),
            positioned(e, self.read.input()),
    {
        let p = self.read.peek_position();
        proof {
            self.read.lemma_bounds();
            lemma_line_column_bounds(self.read.input(), self.read.peek_cursor());
        }
        let e = Error::syntax(code, p.line, p.column);
        proof {
            lemma_positioned(e, self.read.input(), self.read.peek_cursor());
        }
        e
    }

    /// Skips whitespace and looks at the byte after it, if any.
    fn parse_whitespace(&mut self) -> (r: Option<u8>)
        requires
            old(self).read.well_formed(),
        ensures
            final(self).read.well_formed(),
            final(self).read.input() == old(self).read.input(),
            final(self).remaining_depth == old(self).remaining_depth,
            final(self).read.offset() >= old(self).read.offset(),
            r matches Some(b) ==> final(self).read.can_discard() && final(self).read.offset()
                < final(self).read.input().len() && b == final(self).read.input()[final(self).read.offset()],
            r is None ==> final(self).read.offset() == final(self).read.input().len()
                && final(self).read.cursor() == final(self).read.offset(),
            old(self).read.offset() < old(self).read.input().len() && !is_ws(
                old(self).read.input()[old(self).read.offset()],
            ) ==> final(self).read.offset() == old(self).read.offset(),
            final(self).read.offset() == ws_end(old(self).read.input(), old(self).read.offset()),
            r is Some ==> final(self).read.peek_cursor() == final(self).read.offset() + 1
                && final(self).read.cursor() == peeked_at(final(self).read.offset(), R::in_memory()),
    {
        proof {
            self.read.lemma_bounds();
        }
        loop
            invariant
                ws_end(old(self).read.input(), old(self).read.offset()) == ws_end(self.read.input(), self.read.offset()),
                self.read.well_formed(),
                self.read.input() == old(self).read.input(),
                self.remaining_depth == old(self).remaining_depth,
                self.read.offset() >= old(self).read.offset(),
                old(self).read.offset() < old(self).read.input().len() && !is_ws(
                    old(self).read.input()[old(self).read.offset()],
                ) ==> self.read.offset() == old(self).read.offset(),
            decreases self.read.input().len() - self.read.offset(),
        {
            proof {
                self.read.lemma_bounds();
            }
            match self.read.peek() {
                Ok(Some(b)) => {
                    if b == 32 || b == 9 || b == 10 || b == 13 {
                        self.read.discard();
                    } else {
                        return Some(b);
                    }
                },
                _ => {
                    proof {
                        self.read.lemma_bounds();
                    }
                    return None;
                },
            }
        }
    }

    /// Reads the rest of a keyword, whose first byte was read.
    fn parse_ident(&mut self, rest: &[u8]) -> (r: Result<()>)
        requires
            old(self).read.well_formed(),
        ensures
            final(self).read.well_formed(),
            final(self).read.input() == old(self).read.input(),
            final(self).remaining_depth == old(self).remaining_depth,
            final(self).read.offset() >= old(self).read.offset(),
            r is Err ==> positioned(r->Err_0, old(self).read.input()),
            match ident_err(old(self).read.input(), old(self).read.offset(), rest@, 0) {
                Some((code, at)) => r is Err && error_at(r->Err_0, old(self).read.input(), code, at),
                None => r is Ok && final(self).read.offset() == old(self).read.offset() + rest@.len(),
            },
            old(self).read.offset() + rest@.len() <= old(self).read.input().len()
                && old(self).read.input().subrange(
                old(self).read.offset(),
                old(self).read.offset() + rest@.len(),
            ) == rest@ ==> r is Ok && final(self).read.offset() == old(self).read.offset()
                + rest@.len(),
    {
        let ghost s = self.read.input();
        let ghost i0 = self.read.offset();
        proof {
            self.read.lemma_bounds();
        }
        let mut i: usize = 0;
        while i < rest.len()
            invariant
                self.read.well_formed(),
                self.read.input() == old(self).read.input(),
                s == old(self).read.input(),
                i0 == old(self).read.offset(),
                0 <= i0,
                self.read.offset() == i0 + i,
                ident_err(s, i0, rest@, 0) == ident_err(s, i0, rest@, i as int),
                self.remaining_depth == old(self).remaining_depth,
                self.read.offset() >= old(self).read.offset(),
                i <= rest@.len(),
                i0 + rest@.len() <= s.len() && s.subrange(i0, i0 + rest@.len()) == rest@
                    ==> self.read.offset() == i0 + i,
            decreases rest@.len() - i,
        {
            proof {
                self.read.lemma_bounds();
            }
            proof {
                if i0 + rest@.len() <= s.len() && s.subrange(i0, i0 + rest@.len()) == rest@ {
                    assert(s[i0 + i] == s.subrange(i0, i0 + rest@.len())[i as int]);
                }
            }
            match self.read.next() {
                Ok(Some(c)) => {
                    if c != rest[i] {
                        return Err(self.error(ErrorCode::ExpectedSomeIdent));
                    }
                },
                _ => return Err(self.error(ErrorCode::EofWhileParsingValue)),
            }
            i = i + 1;
        }
        Ok(())
    }

    /// Parses a string body (the opening quote read) into a `String`.
    fn parse_string(&mut self) -> (r: Result<String>)
        requires
            old(self).read.well_formed(),
        ensures
            final(self).read.well_formed(),
            final(self).read.input() == old(self).read.input(),
            final(self).remaining_depth == old(self).remaining_depth,
            r is Ok ==> final(self).read.offset() > old(self).read.offset(),
            r is Err ==> positioned(r->Err_0, old(self).read.input()),
            match str_outcome(old(self).read.input(), old(self).read.offset(), true, R::in_memory()) {
                Scan::Done { out, next } => r matches Ok(t) && crate::map::key_bytes(t@) == out
                    && final(self).read.offset() == next,
                Scan::Fail { code, at } => r is Err && error_at(r->Err_0, old(self).read.input(), code, at),
            },
    {
        let ghost s = self.read.input();
        let ghost i = self.read.offset();
        proof {
            self.read.lemma_bounds();
            lemma_str_bounds(s, i, true, R::in_memory());
        }
        match self.read.parse_str(&mut self.scratch) {
            Ok(reference) => {
                let bytes = self.read.copy_content(reference, &self.scratch);
                match string_from_utf8(bytes) {
                    Some(text) => Ok(text),
                    None => Err(self.error(ErrorCode::InvalidUnicodeCodePoint)),
                }
            },
            Err(e) => {
                proof {
                    if let Scan::Fail { code, at } = str_outcome(s, i, true, R::in_memory()) {
                        lemma_positioned(e, s, at);
                    }
                }
                Err(e)
            },
        }
    }

    /// Looks at the next byte without whitespace skipping.
    fn peek_byte(&mut self) -> (r: Option<u8>)
        requires
            old(self).read.well_formed(),
        ensures
            final(self).read.well_formed(),
            final(self).read.input() == old(self).read.input(),
            final(self).remaining_depth == old(self).remaining_depth,
            final(self).read.offset() == old(self).read.offset(),
            r matches Some(b) ==> final(self).read.can_discard() && final(self).read.offset()
                < final(self).read.input().len() && b == final(self).read.input()[final(self).read.offset()],
            r is None ==> final(self).read.offset() >= final(self).read.input().len()
                && final(self).read.cursor() == final(self).read.offset(),
            r is Some ==> final(self).read.peek_cursor() == final(self).read.offset() + 1
                && final(self).read.cursor() == peeked_at(final(self).read.offset(), R::in_memory()),
    {
        match self.read.peek() {
            Ok(Some(b)) => Some(b),
            _ => None,
        }
    }

    /// Takes the run of digits that follows, appending them to `text`.
    fn take_digits(&mut self, text: &mut Vec<u8>)
        requires
            old(self).read.well_formed(),
            forall|k: int| 0 <= k < old(text)@.len() ==> old(text)@[k] < 0x80,
        ensures
            final(self).read.well_formed(),
            final(self).read.input() == old(self).read.input(),
            final(self).remaining_depth == old(self).remaining_depth,
            final(self).read.offset() >= old(self).read.offset(),
            forall|k: int| 0 <= k < final(text)@.len() ==> final(text)@[k] < 0x80,
            final(self).read.offset() == digits_end(old(self).read.input(), old(self).read.offset()),
            final(text)@ == old(text)@ + old(self).read.input().subrange(
                old(self).read.offset(),
                final(self).read.offset(),
            ),
    {
        proof {
            self.read.lemma_bounds();
        }
        loop
            invariant
                self.read.well_formed(),
                self.read.input() == old(self).read.input(),
                self.remaining_depth == old(self).remaining_depth,
                self.read.offset() >= old(self).read.offset(),
                forall|k: int| 0 <= k < text@.len() ==> text@[k] < 0x80,
                0 <= old(self).read.offset(),
                digits_end(self.read.input(), old(self).read.offset()) == digits_end(self.read.input(), self.read.offset()),
                text@ == old(text)@ + self.read.input().subrange(old(self).read.offset(), self.read.offset()),
            decreases self.read.input().len() - self.read.offset(),
        {
            let ghost k0 = self.read.offset();
            let ghost t0 = text@;
            proof {
                self.read.lemma_bounds();
            }
            match self.peek_byte() {
                Some(d) => {
                    if 48 <= d && d <= 57 {
                        self.read.discard();
                        text.push(d);
                        assert(text@ =~= old(text)@ + self.read.input().subrange(old(self).read.offset(), self.read.offset()));
                    } else {
                        return;
                    }
                },
                None => return,
            }
        }
    }

    /// Parses a number whose first byte (a minus sign or a digit) is next.
    #[verifier::spinoff_prover]
    #[verifier::rlimit(100)]
    fn parse_number(&mut self) -> (r: Result<Number>)
        requires
            old(self).read.well_formed(),
            old(self).read.offset() < old(self).read.input().len(),
        ensures
            num_matches(r, final(self).read.offset(), old(self).read.input(), number_spec(old(self).read.input(), old(self).read.offset(), R::in_memory())),
            final(self).read.well_formed(),
            final(self).read.input() == old(self).read.input(),
            final(self).remaining_depth == old(self).remaining_depth,
            r is Ok ==> final(self).read.offset() > old(self).read.offset(),
            r is Err ==> positioned(r->Err_0, old(self).read.input()),
            plain_int(old(self).read.input(), old(self).read.offset()) ==> match int_result(
                old(self).read.input(),
                old(self).read.offset(),
            ) {
                Some(n) => r is Ok && r->Ok_0 == n && final(self).read.offset() == int_token_end(
                    old(self).read.input(),
                    old(self).read.offset(),
                ),
                None => r is Err,
            },
    {
        let ghost s = self.read.input();
        let ghost i0 = self.read.offset();
        let ghost a = int_digits_start(s, i0);
        proof {
            self.read.lemma_bounds();
        }
        let mut text: Vec<u8> = Vec::new();
        let first = match self.read.next() {
            Ok(Some(b)) => b,
            _ => return Err(self.error(ErrorCode::EofWhileParsingValue)),
        };
        let neg = first == 45;
        let c = if neg {
            text.push(45u8);
            proof {
                self.read.lemma_bounds();
            }
            match self.read.next() {
                Ok(Some(b)) => b,
                _ => return Err(self.error(ErrorCode::EofWhileParsingValue)),
            }
        } else {
            first
        };
        if !(48 <= c && c <= 57) {
            return Err(self.error(ErrorCode::InvalidNumber));
        }
        assert(self.read.offset() == a + 1);
        assert(s[a] == c);
        text.push(c);
        assert(text@ =~= s.subrange(i0, self.read.offset()));
        let mut mag: u64 = (c - 48) as u64;
        let mut overflow = false;
        proof {
            let one = s.subrange(a, a + 1);
            assert(one.drop_last() =~= Seq::<u8>::empty());
            assert(one.last() == s[a]);
            assert(digits_value(Seq::<u8>::empty()) == 0);
            assert(digits_value(one.drop_last()) == 0);
            lemma_digits_end(s, a);
            lemma_digits_end(s, a + 1);
            lemma_digits_end(s, a + 2);
            assert(digits_value(one) == (c - 48) as nat);
        }
        if c == 48 {
            if let Some(d) = self.peek_byte() {
                if 48 <= d && d <= 57 {
                    return Err(self.peek_error(ErrorCode::InvalidNumber));
                }
            }
            assert(plain_int(s, i0) ==> self.read.offset() == digits_end(s, a));
        } else {
            loop
                invariant
                    self.read.well_formed(),
                    self.read.input() == s,
                    s == old(self).read.input(),
                    i0 == old(self).read.offset(),
                    a == int_digits_start(s, i0),
                    0 <= a,
                    self.remaining_depth == old(self).remaining_depth,
                    a + 1 <= self.read.offset() <= s.len(),
                    forall|k: int| 0 <= k < text@.len() ==> text@[k] < 0x80,
                    text@ == s.subrange(i0, self.read.offset()),
                    forall|t: int| a <= t < self.read.offset() ==> 48 <= #[trigger] s[t] <= 57,
                    digits_end(s, a) == digits_end(s, self.read.offset()),
                    !overflow ==> mag == digits_value(s.subrange(a, self.read.offset())),
                    overflow ==> digits_value(s.subrange(a, self.read.offset())) > u64::MAX,
                ensures
                    self.read.well_formed(),
                    self.read.input() == s,
                    self.remaining_depth == old(self).remaining_depth,
                    a + 1 <= self.read.offset() <= s.len(),
                    forall|k: int| 0 <= k < text@.len() ==> text@[k] < 0x80,
                    text@ == s.subrange(i0, self.read.offset()),
                    digits_end(s, a) == self.read.offset(),
                    !overflow ==> mag == digits_value(s.subrange(a, self.read.offset())),
                    overflow ==> digits_value(s.subrange(a, self.read.offset())) > u64::MAX,
                decreases s.len() - self.read.offset(),
            {
                proof {
                    self.read.lemma_bounds();
                }
                let ghost k = self.read.offset();
                match self.peek_byte() {
                    Some(d) => {
                        if 48 <= d && d <= 57 {
                            self.read.discard();
                            text.push(d);
                            assert(text@ =~= s.subrange(i0, self.read.offset()));
                            let dv = (d - 48) as u64;
                            let ghost prev = s.subrange(a, k);
                            let ghost next = s.subrange(a, k + 1);
                            assert(next.drop_last() =~= prev);
                            assert(digits_value(next) == digits_value(prev) * 10 + dv);
                            if !overflow {
                                if mag > (u64::MAX - dv) / 10 {
                                    overflow = true;
                                    assert(digits_value(next) > u64::MAX) by (nonlinear_arith)
                                        requires
                                            mag > (u64::MAX - dv) / 10,
                                            dv <= 9,
                                            digits_value(next) == mag * 10 + dv,
                                    ;
                                } else {
                                    assert(mag * 10 + dv <= u64::MAX) by (nonlinear_arith)
                                        requires
                                            mag <= (u64::MAX - dv) / 10,
                                            dv <= 9,
                                    ;
                                    mag = mag * 10 + dv;
                                }
                            } else {
                                assert(digits_value(next) > u64::MAX) by (nonlinear_arith)
                                    requires
                                        digits_value(prev) > u64::MAX,
                                        digits_value(next) == digits_value(prev) * 10 + dv,
                                ;
                            }
                        } else {
                            break;
                        }
                    },
                    None => break,
                }
            }
        }
        proof {
            self.read.lemma_bounds();
            lemma_digits_end(s, self.read.offset());
            if plain_int(s, i0) {
                assert(self.read.offset() == digits_end(s, a));
                assert(!overflow ==> mag == digits_value(s.subrange(a, digits_end(s, a))));
                assert(overflow ==> digits_value(s.subrange(a, digits_end(s, a))) > u64::MAX);
            }
        }
        let ghost b_off = self.read.offset();
        proof {
            assert(b_off == digits_end(s, a));
            assert(text@ == s.subrange(i0, b_off));
            assert(!overflow ==> mag == digits_value(s.subrange(a, b_off)));
            assert(overflow ==> digits_value(s.subrange(a, b_off)) > u64::MAX);
        }
        let mut is_float = false;
        if let Some(dot) = self.peek_byte() {
            if dot == 46 {
                self.read.discard();
                text.push(46u8);
                assert(text@ =~= s.subrange(i0, self.read.offset()));
                is_float = true;
                match self.peek_byte() {
                    Some(d) => {
                        if !(48 <= d && d <= 57) {
                            return Err(self.peek_error(ErrorCode::InvalidNumber));
                        }
                    },
                    None => return Err(self.error(ErrorCode::EofWhileParsingValue)),
                }
                self.take_digits(&mut text);
                proof {
                    self.read.lemma_bounds();
                }
                assert(text@ =~= s.subrange(i0, self.read.offset()));
            }
        }
        let ghost e_off = self.read.offset();
        proof {
            self.read.lemma_bounds();
        }
        if let Some(e) = self.peek_byte() {
            if e == 101 || e == 69 {
                self.read.discard();
                text.push(e);
                assert(text@ =~= s.subrange(i0, self.read.offset()));
                is_float = true;
                if let Some(sign) = self.peek_byte() {
                    if sign == 43 || sign == 45 {
                        self.read.discard();
                        text.push(sign);
                        assert(text@ =~= s.subrange(i0, self.read.offset()));
                    }
                }
                match self.peek_byte() {
                    Some(d) => {
                        if !(48 <= d && d <= 57) {
                            return Err(self.peek_error(ErrorCode::InvalidNumber));
                        }
                    },
                    None => return Err(self.error(ErrorCode::EofWhileParsingValue)),
                }
                self.take_digits(&mut text);
                proof {
                    self.read.lemma_bounds();
                }
                assert(text@ =~= s.subrange(i0, self.read.offset()));
            }
        }
        proof {
            self.read.lemma_bounds();
            assert(text@ == s.subrange(i0, self.read.offset()));
            assert(!is_float ==> self.read.offset() == b_off);
        }
        assert(plain_int(s, i0) ==> !is_float && self.read.offset() == b_off);
        if is_float {
            proof {
                lemma_ascii_valid_utf8(text@);
            }
            let ghost tv = text@;
            match string_from_utf8(text) {
                Some(t) => {
                    assert(num_of(Number::Float(t)) == JNum::Float(tv));
                    Ok(Number::Float(t))
                },
                None => Err(self.error(ErrorCode::InvalidNumber)),
            }
        } else if overflow {
            Err(self.error(ErrorCode::NumberOutOfRange))
        } else if neg {
            if mag == 0 {
                Ok(Number::PosInt(0))
            } else if mag <= 9223372036854775807 {
                Ok(Number::NegInt(-(mag as i64)))
            } else if mag == 9223372036854775808 {
                Ok(Number::NegInt(i64::MIN))
            } else {
                Err(self.error(ErrorCode::NumberOutOfRange))
            }
        } else {
            Ok(Number::PosInt(mag))
        }
    }

    /// Parses one value, after optional whitespace.
    #[verifier::spinoff_prover]
    #[verifier::rlimit(80)]
    pub fn parse_value(&mut self) -> (r: Result<Value>)
        requires
            old(self).well_formed(),
        ensures
            final(self).well_formed(),
            final(self).input() == old(self).input(),
            final(self).remaining() == old(self).remaining(),
            r is Ok ==> final(self).offset() > old(self).offset(),
            r is Err ==> positioned(r->Err_0, old(self).input()),
            r matches Ok(Value::Object(m)) ==> m.well_formed(),
            pres_matches(
                r,
                final(self).offset(),
                old(self).input(),
                value_spec(old(self).input(), old(self).offset(), old(self).remaining() as int, R::in_memory()),
            ),
            literal_at(old(self).input(), old(self).offset(), seq![110u8, 117u8, 108u8, 108u8])
                ==> (r matches Ok(v) && v == Value::Null) && final(self).offset() == old(self).offset() + 4,
            literal_at(old(self).input(), old(self).offset(), seq![116u8, 114u8, 117u8, 101u8])
                ==> (r matches Ok(v) && v == Value::Bool(true)) && final(self).offset() == old(self).offset() + 4,
            literal_at(old(self).input(), old(self).offset(), seq![102u8, 97u8, 108u8, 115u8, 101u8])
                ==> (r matches Ok(v) && v == Value::Bool(false)) && final(self).offset() == old(self).offset() + 5,
            old(self).offset() < old(self).input().len() && old(self).input()[old(self).offset()] == 34
                ==> match str_outcome(old(self).input(), old(self).offset() + 1, true, R::in_memory()) {
                Scan::Done { out, next } => r matches Ok(v) && (v matches Value::String(t)
                    && crate::map::key_bytes(t@) == out) && final(self).offset() == next,
                Scan::Fail { .. } => r is Err,
            },
            plain_int(old(self).input(), old(self).offset()) && old(self).offset() < old(self).input().len()
                ==> match int_result(old(self).input(), old(self).offset()) {
                Some(n) => r is Ok && r->Ok_0 == Value::Number(n) && final(self).offset() == int_token_end(
                    old(self).input(),
                    old(self).offset(),
                ),
                None => r is Err,
            },
        decreases old(self).remaining(), 0nat,
    {
        let ghost s = self.read.input();
        let ghost i0 = self.read.offset();
        proof {
            self.read.lemma_bounds();
            lemma_ws_end(s, i0);
        }
        let peek = match self.parse_whitespace() {
            Some(b) => b,
            None => return Err(self.error(ErrorCode::EofWhileParsingValue)),
        };
        if peek == 110 {
            self.read.discard();
            let rest: [u8; 3] = [117, 108, 108];
            proof {
                assert(rest@ =~= seq![110u8, 117u8, 108u8, 108u8].subrange(1, 4));
                lemma_literal_tail(self.read.input(), old(self).offset(), seq![110u8, 117u8, 108u8, 108u8]);
            }
            match self.parse_ident(rest.as_slice()) {
                Ok(()) => Ok(Value::Null),
                Err(e) => Err(e),
            }
        } else if peek == 116 {
            self.read.discard();
            let rest: [u8; 3] = [114, 117, 101];
            proof {
                assert(rest@ =~= seq![116u8, 114u8, 117u8, 101u8].subrange(1, 4));
                lemma_literal_tail(self.read.input(), old(self).offset(), seq![116u8, 114u8, 117u8, 101u8]);
            }
            match self.parse_ident(rest.as_slice()) {
                Ok(()) => Ok(Value::Bool(true)),
                Err(e) => Err(e),
            }
        } else if peek == 102 {
            self.read.discard();
            let rest: [u8; 4] = [97, 108, 115, 101];
            proof {
                assert(rest@ =~= seq![102u8, 97u8, 108u8, 115u8, 101u8].subrange(1, 5));
                lemma_literal_tail(self.read.input(), old(self).offset(), seq![102u8, 97u8, 108u8, 115u8, 101u8]);
            }
            match self.parse_ident(rest.as_slice()) {
                Ok(()) => Ok(Value::Bool(false)),
                Err(e) => Err(e),
            }
        } else if peek == 34 {
            self.read.discard();
            match self.parse_string() {
                Ok(text) => Ok(Value::String(text)),
                Err(e) => Err(e),
            }
        } else if peek == 45 || (48 <= peek && peek <= 57) {
            match self.parse_number() {
                Ok(n) => Ok(Value::Number(n)),
                Err(e) => Err(e),
            }
        } else if peek == 91 {
            self.read.discard();
            if self.remaining_depth == 0 {
                return Err(self.error(ErrorCode::RecursionLimitExceeded));
            }
            self.remaining_depth = self.remaining_depth - 1;
            let r = self.parse_array();
            self.remaining_depth = self.remaining_depth + 1;
            r
        } else if peek == 123 {
            self.read.discard();
            if self.remaining_depth == 0 {
                return Err(self.error(ErrorCode::RecursionLimitExceeded));
            }
            self.remaining_depth = self.remaining_depth - 1;
            let r = self.parse_object();
            self.remaining_depth = self.remaining_depth + 1;
            r
        } else {
            Err(self.peek_error(ErrorCode::ExpectedSomeValue))
        }
    }

    /// Parses the items of an array, its `[` read.
    #[verifier::spinoff_prover]
    #[verifier::rlimit(100)]
    fn parse_array(&mut self) -> (r: Result<Value>)
        requires
            old(self).well_formed(),
        ensures
            r matches Ok(v) ==> v is Array,
            final(self).well_formed(),
            final(self).input() == old(self).input(),
            final(self).remaining_depth == old(self).remaining_depth,
            r is Ok ==> final(self).offset() > old(self).offset(),
            r is Err ==> positioned(r->Err_0, old(self).input()),
            pres_matches(
                r,
                final(self).offset(),
                old(self).input(),
                array_spec(old(self).input(), old(self).offset(), old(self).remaining_depth as int, R::in_memory()),
            ),
        decreases old(self).remaining(), 1nat,
    {
        let ghost s = self.read.input();
        let ghost i0 = self.read.offset();
        let ghost d = self.remaining_depth as int;
        let ghost m = R::in_memory();
        proof {
            self.read.lemma_bounds();
            lemma_ws_end(s, i0);
        }
        let mut items: Vec<Value> = Vec::new();
        match self.parse_whitespace() {
            None => return Err(self.error(ErrorCode::EofWhileParsingList)),
            Some(b) => {
                if b == 93 {
                    self.read.discard();
                    let r = Value::Array(items);
                    assert(json_items(items@) =~= Seq::<Json>::empty());
                    return Ok(r);
                }
            },
        }
        proof {
            let j = self.read.offset();
            assert(ws_end(s, j) == j);
            assert(array_spec(s, i0, d, m) == items_spec(s, j, d, json_items(items@), m));
        }
        loop
            invariant
                self.well_formed(),
                self.input() == s,
                s == old(self).input(),
                i0 == old(self).offset(),
                d == old(self).remaining_depth as int,
                m == R::in_memory(),
                self.remaining_depth == old(self).remaining_depth,
                self.offset() >= old(self).offset(),
                array_spec(s, i0, d, m) == items_spec(s, self.offset(), d, json_items(items@), m),
            decreases self.input().len() - self.offset(),
        {
            proof {
                self.read.lemma_bounds();
            }
            let ghost o = self.read.offset();
            let v = match self.parse_value() {
                Ok(v) => v,
                Err(e) => return Err(e),
            };
            let ghost p = self.read.offset();
            proof {
                lemma_json_items_push(items@, v);
                self.read.lemma_bounds();
                lemma_ws_end(s, p);
            }
            items.push(v);
            match self.parse_whitespace() {
                None => return Err(self.error(ErrorCode::EofWhileParsingList)),
                Some(b) => {
                    let ghost k = self.read.offset();
                    if b == 44 {
                        self.read.discard();
                        proof {
                            self.read.lemma_bounds();
                            lemma_ws_end(s, k + 1);
                        }
                        if let Some(c) = self.parse_whitespace() {
                            if c == 93 {
                                return Err(self.error(ErrorCode::TrailingComma));
                            }
                        }
                        proof {
                            self.read.lemma_bounds();
                        }
                    } else if b == 93 {
                        self.read.discard();
                        return Ok(Value::Array(items));
                    } else {
                        return Err(self.peek_error(ErrorCode::ExpectedListCommaOrEnd));
                    }
                },
            }
        }
    }

    /// Parses the entries of an object, its `{` read.
    #[verifier::spinoff_prover]
    #[verifier::rlimit(100)]
    fn parse_object(&mut self) -> (r: Result<Value>)
        requires
            old(self).well_formed(),
        ensures
            r matches Ok(v) ==> (v matches Value::Object(m) && m.well_formed()),
            final(self).well_formed(),
            final(self).input() == old(self).input(),
            final(self).remaining_depth == old(self).remaining_depth,
            r is Ok ==> final(self).offset() > old(self).offset(),
            r is Err ==> positioned(r->Err_0, old(self).input()),
            pres_matches(
                r,
                final(self).offset(),
                old(self).input(),
                object_spec(old(self).input(), old(self).offset(), old(self).remaining_depth as int, R::in_memory()),
            ),
        decreases old(self).remaining(), 1nat,
    {
        let ghost s = self.read.input();
        let ghost i0 = self.read.offset();
        let ghost d = self.remaining_depth as int;
        let ghost m = R::in_memory();
        proof {
            self.read.lemma_bounds();
            lemma_ws_end(s, i0);
        }
        let mut map = JsonMap::new();
        match self.parse_whitespace() {
            None => return Err(self.error(ErrorCode::EofWhileParsingObject)),
            Some(b) => {
                if b == 125 {
                    self.read.discard();
                    assert(json_entries(map.spec_entries()) =~= Seq::<(Seq<u8>, Json)>::empty());
                    return Ok(Value::Object(map));
                }
            },
        }
        proof {
            let j = self.read.offset();
            assert(json_entries(map.spec_entries()) =~= Seq::<(Seq<u8>, Json)>::empty());
            assert(object_spec(s, i0, d, m) == entries_spec(s, j, d, json_entries(map.spec_entries()), m));
        }
        loop
            invariant
                self.well_formed(),
                self.input() == s,
                s == old(self).input(),
                i0 == old(self).offset(),
                d == old(self).remaining_depth as int,
                m == R::in_memory(),
                self.remaining_depth == old(self).remaining_depth,
                self.offset() >= old(self).offset(),
                map.well_formed(),
                object_spec(s, i0, d, m) == entries_spec(s, self.offset(), d, json_entries(map.spec_entries()), m),
            decreases self.input().len() - self.offset(),
        {
            proof {
                self.read.lemma_bounds();
                lemma_ws_end(s, self.read.offset());
            }
            let ghost i = self.read.offset();
            match self.parse_whitespace() {
                None => return Err(self.error(ErrorCode::EofWhileParsingObject)),
                Some(b) => {
                    if b != 34 {
                        return Err(self.peek_error(ErrorCode::KeyMustBeAString));
                    }
                },
            }
            let ghost k = self.read.offset();
            self.read.discard();
            proof {
                lemma_str_bounds(s, k + 1, true, m);
            }
            let key = match self.parse_string() {
                Ok(k) => k,
                Err(e) => return Err(e),
            };
            let ghost n = self.read.offset();
            proof {
                self.read.lemma_bounds();
                lemma_ws_end(s, n);
            }
            match self.parse_whitespace() {
                None => return Err(self.error(ErrorCode::EofWhileParsingObject)),
                Some(b) => {
                    if b != 58 {
                        return Err(self.peek_error(ErrorCode::ExpectedColon));
                    }
                },
            }
            self.read.discard();
            let v = match self.parse_value() {
                Ok(v) => v,
                Err(e) => return Err(e),
            };
            let ghost p = self.read.offset();
            proof {
                lemma_json_insert(map.spec_entries(), key, v);
                self.read.lemma_bounds();
                lemma_ws_end(s, p);
            }
            map.insert(key, v);
            match self.parse_whitespace() {
                None => return Err(self.error(ErrorCode::EofWhileParsingObject)),
                Some(b) => {
                    let ghost q = self.read.offset();
                    if b == 44 {
                        self.read.discard();
                        proof {
                            self.read.lemma_bounds();
                            lemma_ws_end(s, q + 1);
                        }
                        if let Some(c) = self.parse_whitespace() {
                            if c == 125 {
                                return Err(self.error(ErrorCode::TrailingComma));
                            }
                        }
                        proof {
                            self.read.lemma_bounds();
                        }
                    } else if b == 125 {
                        self.read.discard();
                        return Ok(Value::Object(map));
                    } else {
                        return Err(self.peek_error(ErrorCode::ExpectedObjectCommaOrEnd));
                    }
                },
            }
        }
    }

    /// Checks that only whitespace is left.
    pub fn end(&mut self) -> (r: Result<()>)
        requires
            old(self).well_formed(),
        ensures
            final(self).well_formed(),
            final(self).input() == old(self).input(),
            r is Ok ==> final(self).offset() == final(self).input().len(),
            r is Err ==> positioned(r->Err_0, old(self).input()) && r->Err_0.spec_code()
                == ErrorCode::TrailingCharacters,
            old(self).offset() >= old(self).input().len() ==> r is Ok,
            r is Ok <==> ws_end(old(self).input(), old(self).offset()) >= old(self).input().len(),
            r is Err ==> error_at(
                r->Err_0,
                old(self).input(),
                ErrorCode::TrailingCharacters,
                ws_end(old(self).input(), old(self).offset()) + 1,
            ),
    {
        proof {
            self.read.lemma_bounds();
            lemma_ws_end(self.read.input(), self.read.offset());
        }
        match self.parse_whitespace() {
            Some(_) => Err(self.peek_error(ErrorCode::TrailingCharacters)),
            None => Ok(()),
        }
    }
}

fn parse_all<R: Read>(read: R) -> (r: Result<Value>)
    requires
        read.well_formed(),
        read.offset() == 0,
    ensures
        r is Err ==> positioned(r->Err_0, read.input()),
        r matches Ok(Value::Object(m)) ==> m.well_formed(),
        int_parse_outcome(read.input()) matches Some(o) ==> int_parse_matches(r, o),
        scalar_outcome(read.input(), R::in_memory()) matches Some(v) ==> (r matches Ok(x) && same_scalar(x, v)),
        outcome_matches(r, read.input(), parse_outcome(read.input(), R::in_memory())),
{
    let ghost s = read.input();
    proof {
        assert(s.subrange(0, s.len() as int) =~= s);
        read.lemma_bounds();
    }
    let mut de = Deserializer::new(read);
    let value = match de.parse_value() {
        Ok(v) => v,
        Err(e) => return Err(e),
    };
    proof {
        de.read.lemma_bounds();
        lemma_ws_end(s, de.offset());
    }
    match de.end() {
        Ok(()) => Ok(value),
        Err(e) => Err(e),
    }
}

/// Parses a JSON value from bytes: one value, with whitespace around it.
pub fn from_slice(v: &[u8]) -> (r: Result<Value>)
    requires
        v@.len() < usize::MAX,
    ensures
        r is Err ==> positioned(r->Err_0, v@),
        r matches Ok(Value::Object(m)) ==> m.well_formed(),
        int_parse_outcome(v@) matches Some(o) ==> int_parse_matches(r, o),
        scalar_outcome(v@, SliceRead::in_memory()) matches Some(v) ==> (r matches Ok(x) && same_scalar(x, v)),
        outcome_matches(r, v@, parse_outcome(v@, SliceRead::in_memory())),
{
    parse_all(SliceRead::new(v))
}

/// Parses a JSON value from a string.
pub fn from_str(s: &str) -> (r: Result<Value>)
    requires
        s.spec_bytes().len() < usize::MAX,
    ensures
        r is Err ==> positioned(r->Err_0, s.spec_bytes()),
        r matches Ok(Value::Object(m)) ==> m.well_formed(),
        int_parse_outcome(s.spec_bytes()) matches Some(o) ==> int_parse_matches(r, o),
        scalar_outcome(s.spec_bytes(), StrRead::in_memory()) matches Some(v) ==> (r matches Ok(x) && same_scalar(x, v)),
        outcome_matches(r, s.spec_bytes(), parse_outcome(s.spec_bytes(), StrRead::in_memory())),
{
    parse_all(StrRead::new(s))
}

/// Parses a JSON value from the bytes of a stream, read one at a time.
pub fn from_reader(bytes: Vec<u8>) -> (r: Result<Value>)
    requires
        bytes@.len() < usize::MAX,
    ensures
        r is Err ==> positioned(r->Err_0, bytes@),
        r matches Ok(Value::Object(m)) ==> m.well_formed(),
        int_parse_outcome(bytes@) matches Some(o) ==> int_parse_matches(r, o),
        scalar_outcome(bytes@, IoRead::in_memory()) matches Some(v) ==> (r matches Ok(x) && same_scalar(x, v)),
        outcome_matches(r, bytes@, parse_outcome(bytes@, IoRead::in_memory())),
{
    parse_all(IoRead::new(bytes))
}


proof fn lemma_decimal_digits(n: nat)
    ensures
        decimal(n).len() >= 1,
        forall|j: int| 0 <= j < decimal(n).len() ==> 48 <= #[trigger] decimal(n)[j] <= 57,
        digits_value(decimal(n)) == n,
        n >= 1 ==> decimal(n)[0] != 48,
        n == 0 ==> decimal(n).len() == 1,
    decreases n,
{
    let d = decimal(n);
    if n < 10 {
        assert(d.drop_last() =~= Seq::<u8>::empty());
        assert(digits_value(Seq::<u8>::empty()) == 0);
    } else {
        lemma_decimal_digits(n / 10);
        let h = decimal(n / 10);
        assert(d.drop_last() =~= h);
        assert(d.last() == (48 + n % 10) as u8);
        assert(n == (n / 10) * 10 + n % 10) by (nonlinear_arith);
        assert(d[0] == h[0]);
    }
}

proof fn lemma_digits_end_all(s: Seq<u8>, i: int)
    requires
        0 <= i <= s.len(),
        forall|j: int| i <= j < s.len() ==> 48 <= #[trigger] s[j] <= 57,
    ensures
        digits_end(s, i) == s.len(),
    decreases s.len() - i,
{
    if i < s.len() {
        lemma_digits_end_all(s, i + 1);
    }
}

/// A non-negative integer, written in decimal and parsed back, is itself.
pub proof fn lemma_u64_round_trip(v: u64)
    ensures
        compact(Value::Number(Number::PosInt(v))) == int_text(v as int),
        int_parse_outcome(compact(Value::Number(Number::PosInt(v)))) == Some(
            Some(Number::PosInt(v)),
        ),
{
    lemma_compact_number(Number::PosInt(v));
    let s = int_text(v as int);
    lemma_decimal_digits(v as nat);
    lemma_digits_end_all(s, 0);
    assert(s.subrange(0, s.len() as int) =~= s);
}

/// A signed integer, written in decimal and parsed back, is itself (kept as
/// a non-negative number when it is one).
pub proof fn lemma_i64_round_trip(v: i64)
    ensures
        compact(Value::Number(Number::NegInt(v))) == int_text(v as int),
        v < 0 ==> int_parse_outcome(int_text(v as int)) == Some(Some(Number::NegInt(v))),
        v >= 0 ==> int_parse_outcome(int_text(v as int)) == Some(Some(Number::PosInt(v as u64))),
{
    lemma_compact_number(Number::NegInt(v));
    let s = int_text(v as int);
    if v < 0 {
        let m = (-v) as nat;
        lemma_decimal_digits(m);
        let d = decimal(m);
        assert(s == seq![45u8] + d);
        assert forall|j: int| 1 <= j < s.len() implies 48 <= #[trigger] s[j] <= 57 by {
            assert(s[j] == d[j - 1]);
        }
        lemma_digits_end_all(s, 1);
        assert(s.subrange(1, s.len() as int) =~= d);
    } else {
        lemma_decimal_digits(v as nat);
        lemma_digits_end_all(s, 0);
        assert(s.subrange(0, s.len() as int) =~= s);
    }
}

proof fn lemma_compact_number(n: Number)
    ensures
        compact(Value::Number(n)) == number_text(n),
{
    lemma_run_one(CompactFormatter, Event::Number(number_text(n)));
}


/// Parses a run of JSON values, one after another, from one source. After the
/// first error it yields nothing more.
pub struct StreamDeserializer<R> {
    de: Deserializer<R>,
    failed: bool,
}

impl<R: Read> StreamDeserializer<R> {
    pub closed spec fn well_formed(&self) -> bool {
        self.de.well_formed() && self.de.remaining_depth == RECURSION_LIMIT
    }

    /// Nothing more will be yielded.
    pub closed spec fn exhausted(&self) -> bool {
        self.failed || self.de.offset() >= self.de.input().len()
    }

    /// The offset of the next value.
    pub closed spec fn offset(&self) -> int {
        self.de.offset()
    }

    pub closed spec fn input(&self) -> Seq<u8> {
        self.de.input()
    }

    /// A stream of values from `read`.
    pub fn new(read: R) -> (r: Self)
        requires
            read.well_formed(),
        ensures
            r.well_formed(),
            r.input() == read.input(),
            r.offset() == read.offset(),
            !r.exhausted() <==> read.offset() < read.input().len(),
    {
        StreamDeserializer { de: Deserializer::new(read), failed: false }
    }

    /// The next value: `None` once the input holds only whitespace, or after
    /// an error.
    pub fn next_value(&mut self) -> (r: Option<Result<Value>>)
        requires
            old(self).well_formed(),
        ensures
            final(self).well_formed(),
            old(self).exhausted() ==> r is None && final(self).exhausted(),
            r matches Some(Err(e)) ==> final(self).exhausted() && positioned(e, old(self).input()),
            r matches Some(Ok(_)) ==> final(self).offset() > old(self).offset() && final(self).input()
                == old(self).input(),
            r is None ==> final(self).exhausted(),
            !old(self).exhausted() && ws_end(old(self).input(), old(self).offset()) >= old(self).input().len()
                ==> r is None,
            !old(self).exhausted() && ws_end(old(self).input(), old(self).offset()) < old(self).input().len()
                ==> (r matches Some(res) && pres_matches(
                res,
                final(self).offset(),
                old(self).input(),
                value_spec(old(self).input(), old(self).offset(), depth_limit(), R::in_memory()),
            )),
    {
        if self.failed {
            return None;
        }
        proof {
            self.de.read.lemma_bounds();
            lemma_ws_end(self.de.read.input(), self.de.read.offset());
        }
        if self.de.parse_whitespace().is_none() {
            return None;
        }
        proof {
            let j = self.de.read.offset();
            assert(ws_end(self.de.read.input(), j) == j);
        }
        match self.de.parse_value() {
            Ok(v) => Some(Ok(v)),
            Err(e) => {
                proof {
                    self.de.read.lemma_bounds();
                }
                let ghost off = self.de.read.offset();
                let ghost before = self.de.read.input();
                self.de.read.set_failed(&mut self.failed);
                proof {
                    self.de.read.lemma_bounds();
                    if !self.failed {
                        assert(self.de.read.input().len() == before.subrange(0, off).len());
                    }
                }
                Some(Err(e))
            },
        }
    }
}


/// The escaped form of the bytes of a string from offset `i` on, as the
/// emitter writes them.
pub open spec fn escaped_from(b: Seq<u8>, i: int) -> Seq<u8>
    decreases b.len() - i,
{
    if i < 0 || i >= b.len() {
        Seq::empty()
    } else {
        escaped_byte(b[i]) + escaped_from(b, i + 1)
    }
}

proof fn lemma_contents_text(b: Seq<u8>, start: int, i: int)
    requires
        0 <= start <= i <= b.len(),
        forall|j: int| start <= j < i ==> escape_of(#[trigger] b[j]) is None,
    ensures
        run_text(CompactFormatter, contents_events(b, start, i)) == b.subrange(start, i) + escaped_from(b, i),
    decreases b.len() - i,
{
    if i >= b.len() {
        if start < b.len() {
            lemma_run_one(CompactFormatter, Event::Fragment(b.subrange(start, b.len() as int)));
        }
        assert(b.subrange(start, i) + Seq::<u8>::empty() =~= b.subrange(start, i));
    } else if escape_of(b[i]) is Some {
        let ce = escape_of(b[i])->0;
        let rest = contents_events(b, i + 1, i + 1);
        lemma_contents_text(b, i + 1, i + 1);
        lemma_run_step(CompactFormatter, Event::Escape(ce), rest);
        if start < i {
            let f = Event::Fragment(b.subrange(start, i));
            lemma_run_step(CompactFormatter, f, seq![Event::Escape(ce)] + rest);
            assert(seq![f] + seq![Event::Escape(ce)] + rest =~= seq![f] + (seq![Event::Escape(ce)] + rest));
        } else {
            assert(Seq::<Event>::empty() + seq![Event::Escape(ce)] + rest =~= seq![Event::Escape(ce)] + rest);
        }
        assert(b.subrange(i + 1, i + 1) =~= Seq::<u8>::empty());
        assert(b.subrange(start, i) + (escape_text(ce) + (Seq::<u8>::empty() + escaped_from(b, i + 1))) =~= b.subrange(start, i) + escaped_from(b, i));
    } else {
        lemma_contents_text(b, start, i + 1);
        assert(b.subrange(start, i + 1) + escaped_from(b, i + 1) =~= b.subrange(start, i) + escaped_from(b, i));
    }
}

proof fn lemma_hex_digit_round_trip(d: u8)
    requires
        d < 16,
    ensures
        hex_val(hex_digit(d)) == Some(d as u16),
{
}

/// How the emitter writes one byte of a string.
pub open spec fn escaped_byte(c: u8) -> Seq<u8> {
    match escape_of(c) {
        Some(ce) => escape_text(ce),
        None => seq![c],
    }
}

proof fn lemma_hex_of_control(t: Seq<u8>, j: int, x: u8, m: bool)
    requires
        x < 0x20,
        0 <= j,
        j + 4 < t.len(),
        t[j] == 48u8,
        t[j + 1] == 48u8,
        t[j + 2] == hex_digit(x / 16),
        t[j + 3] == hex_digit(x % 16),
    ensures
        hex_spec(t, j, m) == Hex::Value(x as u16),
{
    lemma_hex_digit_round_trip(x / 16);
    lemma_hex_digit_round_trip(x % 16);
    reveal_with_fuel(hex_from, 5);
    assert(((x / 16) as int) * 16 + ((x % 16) as int) == x as int);
}

/// One written byte decodes back to itself.
proof fn lemma_piece_decodes(t: Seq<u8>, k: int, c: u8, m: bool)
    requires
        0 <= k,
        k + escaped_byte(c).len() < t.len(),
        t.subrange(k, k + escaped_byte(c).len()) == escaped_byte(c),
    ensures
        str_spec(t, k, true, m) == prepend(seq![c], str_spec(t, k + escaped_byte(c).len(), true, m)),
{
    let piece = escaped_byte(c);
    assert forall|j: int| 0 <= j < piece.len() implies t[k + j] == piece[j] by {
        assert(t[k + j] == t.subrange(k, k + piece.len())[j]);
    }
    match escape_of(c) {
        None => {
            assert(piece =~= seq![c]);
            assert(t[k] == t.subrange(k, k + piece.len())[0]);
            assert(t[k] == c);
        },
        Some(ce) => {
            assert(t[k] == 92u8);
            match ce {
                CharEscape::AsciiControl(x) => {
                    assert(t[k + 1] == 117u8);
                    lemma_hex_of_control(t, k + 2, x, m);
                    assert((x as u32 & 0x7F) as u8 == x) by (bit_vector)
                        requires
                            x < 0x20,
                    ;
                    assert(unit_utf8(x as u32) =~= seq![x]);
                },
                _ => {
                    assert(t[k + 1] == piece[1]);
                },
            }
        },
    }
}

/// Decoding the escaped bytes of a string from offset `i`, followed by a
/// closing quote, gives back the bytes.
proof fn lemma_unescape_from(t: Seq<u8>, k: int, b: Seq<u8>, i: int, m: bool)
    requires
        0 <= i <= b.len(),
        0 <= k <= t.len(),
        t.subrange(k, t.len() as int) == escaped_from(b, i) + seq![34u8],
    ensures
        str_spec(t, k, true, m) == (Scan::Done { out: b.subrange(i, b.len() as int), next: t.len() as int }),
    decreases b.len() - i,
{
    let tail = t.subrange(k, t.len() as int);
    if i >= b.len() {
        assert(tail[0] == 34u8);
        assert(t[k] == tail[0]);
        assert(b.subrange(i, b.len() as int) =~= Seq::<u8>::empty());
        assert(tail.len() == 1);
    } else {
        let c = b[i];
        let piece = escaped_byte(c);
        let k2 = k + piece.len();
        assert(escaped_from(b, i) == piece + escaped_from(b, i + 1));
        assert(tail =~= piece + (escaped_from(b, i + 1) + seq![34u8]));
        assert(t.subrange(k2, t.len() as int) =~= tail.subrange(piece.len() as int, tail.len() as int));
        assert(tail.subrange(piece.len() as int, tail.len() as int) =~= escaped_from(b, i + 1) + seq![34u8]);
        assert(t.subrange(k, k2) =~= tail.subrange(0, piece.len() as int));
        assert(tail.subrange(0, piece.len() as int) =~= piece);
        lemma_unescape_from(t, k2, b, i + 1, m);
        lemma_piece_decodes(t, k, c, m);
        let rest = b.subrange(i + 1, b.len() as int);
        assert(seq![c] + rest =~= b.subrange(i, b.len() as int));
    }
}

/// A string, emitted and parsed back as the whole input, gives back its
/// bytes.
pub proof fn lemma_string_round_trip(s: String, in_memory: bool)
    ensures
        scalar_outcome(compact(Value::String(s)), in_memory) == Some(Scalar::Str(crate::map::key_bytes(s@))),
{
    let b = crate::map::key_bytes(s@);
    encode_utf8_valid_utf8(s@);
    let evs = contents_events(b, 0, 0);
    lemma_contents_text(b, 0, 0);
    assert(b.subrange(0, 0) + escaped_from(b, 0) =~= escaped_from(b, 0));
    let open = seq![Event::BeginString];
    let close = seq![Event::EndString];
    lemma_run_concat(CompactFormatter, open, evs);
    lemma_run_concat(CompactFormatter, open + evs, close);
    lemma_run_one(CompactFormatter, Event::BeginString);
    lemma_run_one(CompactFormatter, Event::EndString);
    lemma_compact_state_run(open);
    lemma_compact_state_run(open + evs);
    let t = compact(Value::String(s));
    assert(t =~= seq![34u8] + escaped_from(b, 0) + seq![34u8]);
    assert(t.subrange(1, t.len() as int) =~= escaped_from(b, 0) + seq![34u8]);
    lemma_unescape_from(t, 1, b, 0, in_memory);
    assert(b.subrange(0, b.len() as int) =~= b);
    assert(t[0] == 34u8);
    assert(t != seq![110u8, 117u8, 108u8, 108u8]);
    assert(t != seq![116u8, 114u8, 117u8, 101u8]);
    assert(t != seq![102u8, 97u8, 108u8, 115u8, 101u8]);
}

proof fn lemma_compact_state_run(evs: Seq<Event>)
    ensures
        run_state(CompactFormatter, evs) == CompactFormatter,
    decreases evs.len(),
{
    if evs.len() > 0 {
        lemma_compact_state_run(evs.drop_first());
    }
}


/// Null, a boolean, a string or an integer: the text written for it, parsed as
/// a whole input, gives it back (a non-negative integer as a non-negative
/// number).
pub proof fn lemma_scalar_round_trip(v: Value, in_memory: bool)
    ensures
        v is Null ==> scalar_outcome(compact(v), in_memory) == Some(Scalar::Null),
        v matches Value::Bool(b) ==> scalar_outcome(compact(v), in_memory) == Some(Scalar::Bool(b)),
        v matches Value::String(s) ==> scalar_outcome(compact(v), in_memory) == Some(
            Scalar::Str(crate::map::key_bytes(s@)),
        ),
        v matches Value::Number(Number::PosInt(u)) ==> int_parse_outcome(compact(v)) == Some(
            Some(Number::PosInt(u)),
        ),
        v matches Value::Number(Number::NegInt(i)) ==> int_parse_outcome(compact(v)) == Some(
            Some(if i < 0 { Number::NegInt(i) } else { Number::PosInt(i as u64) }),
        ),
{
    match v {
        Value::Null => lemma_run_one(CompactFormatter, Event::Null),
        Value::Bool(b) => lemma_run_one(CompactFormatter, Event::Bool(b)),
        Value::String(s) => lemma_string_round_trip(s, in_memory),
        Value::Number(Number::PosInt(u)) => lemma_u64_round_trip(u),
        Value::Number(Number::NegInt(i)) => lemma_i64_round_trip(i),
        _ => {},
    }
}

} // verus!
