//! The JSON grammar as the parser reads it: a model of JSON values, and what
//! parsing gives from each offset of an input, value or error with position.

use vstd::prelude::*;
use crate::error::{ErrorCode, digits_end, digits_value};
use crate::map::{JsonMap, key_bytes, lex_lt, insert_spec, lemma_key_bytes_injective};
use crate::read::{Scan, str_outcome, peeked_at};
use crate::value::{Number, Value};

verus! {

/// A JSON number as the parser reads it; a fraction or exponent keeps its text.
pub enum JNum {
    Pos(u64),
    Neg(i64),
    Float(Seq<u8>),
}

/// A JSON value: strings and keys as their UTF-8 bytes, object entries in key
/// order.
pub enum Json {
    Null,
    Bool(bool),
    Num(JNum),
    Str(Seq<u8>),
    Arr(Seq<Json>),
    Obj(Seq<(Seq<u8>, Json)>),
}

pub open spec fn num_of(n: Number) -> JNum {
    match n {
        Number::PosInt(u) => JNum::Pos(u),
        Number::NegInt(i) => JNum::Neg(i),
        Number::Float(t) => JNum::Float(key_bytes(t@)),
    }
}

/// The model of a value.
pub open spec fn json_of(v: Value) -> Json
    decreases v, 2int,
    via json_of_decreases
{
    match v {
        Value::Null => Json::Null,
        Value::Bool(b) => Json::Bool(b),
        Value::Number(n) => Json::Num(num_of(n)),
        Value::String(s) => Json::Str(key_bytes(s@)),
        Value::Array(a) => Json::Arr(json_items(a@)),
        Value::Object(m) => Json::Obj(json_entries(m.spec_entries())),
    }
}

pub open spec fn json_items(a: Seq<Value>) -> Seq<Json>
    decreases a, 1int,
{
    if a.len() == 0 {
        Seq::empty()
    } else {
        seq![json_of(a[0])] + json_items(a.drop_first())
    }
}

pub open spec fn json_entries(es: Seq<(String, Value)>) -> Seq<(Seq<u8>, Json)>
    decreases es, 1int,
{
    if es.len() == 0 {
        Seq::empty()
    } else {
        seq![(key_bytes(es[0].0@), json_of(es[0].1))] + json_entries(es.drop_first())
    }
}

#[via_fn]
proof fn json_of_decreases(v: Value) {
    match v {
        Value::Object(m) => {
            m.lemma_entries_decrease();
        },
        Value::Array(a) => {
            assert(decreases_to!(a => a@));
        },
        _ => {},
    }
}

pub proof fn lemma_json_items_push(a: Seq<Value>, x: Value)
    ensures
        json_items(a.push(x)) == json_items(a).push(json_of(x)),
    decreases a.len(),
{
    if a.len() == 0 {
        assert(a.push(x).drop_first() =~= Seq::<Value>::empty());
        assert(json_items(Seq::<Value>::empty()) =~= Seq::<Json>::empty());
        assert(json_items(a.push(x)) =~= seq![json_of(x)]);
        assert(json_items(a) =~= Seq::<Json>::empty());
        assert(json_items(a).push(json_of(x)) =~= seq![json_of(x)]);
    } else {
        assert(a.push(x).drop_first() =~= a.drop_first().push(x));
        lemma_json_items_push(a.drop_first(), x);
        assert(json_items(a.push(x)) =~= json_items(a).push(json_of(x)));
    }
}

/// Entries after putting `v` under key bytes `k`, in key order; a repeated key
/// keeps the later value.
pub open spec fn json_insert(es: Seq<(Seq<u8>, Json)>, k: Seq<u8>, v: Json) -> Seq<(Seq<u8>, Json)>
    decreases es.len(),
{
    if es.len() == 0 {
        seq![(k, v)]
    } else if lex_lt(es[0].0, k) {
        seq![es[0]] + json_insert(es.drop_first(), k, v)
    } else if es[0].0 == k {
        seq![(k, v)] + es.drop_first()
    } else {
        seq![(k, v)] + es
    }
}

pub proof fn lemma_json_insert(es: Seq<(String, Value)>, k: String, v: Value)
    ensures
        json_entries(insert_spec(es, k, v)) == json_insert(json_entries(es), key_bytes(k@), json_of(v)),
    decreases es.len(),
{
    let je = json_entries(es);
    if es.len() == 0 {
        assert(json_entries(seq![(k, v)]) =~= seq![(key_bytes(k@), json_of(v))]) by {
            assert(seq![(k, v)].drop_first() =~= Seq::<(String, Value)>::empty());
            assert(json_entries(Seq::<(String, Value)>::empty()) =~= Seq::<(Seq<u8>, Json)>::empty());
        }
    } else {
        assert(je[0] == (key_bytes(es[0].0@), json_of(es[0].1)));
        assert(je.drop_first() =~= json_entries(es.drop_first()));
        if key_bytes(es[0].0@) == key_bytes(k@) {
            lemma_key_bytes_injective(es[0].0@, k@);
        }
        if lex_lt(key_bytes(es[0].0@), key_bytes(k@)) {
            lemma_json_insert(es.drop_first(), k, v);
            let r = seq![es[0]] + insert_spec(es.drop_first(), k, v);
            assert(r[0] == es[0]);
            assert(r.drop_first() =~= insert_spec(es.drop_first(), k, v));
            assert(json_entries(r) =~= seq![je[0]] + json_insert(je.drop_first(), key_bytes(k@), json_of(v)));
        } else if es[0].0@ == k@ {
            let r = seq![(es[0].0, v)] + es.drop_first();
            assert(r.drop_first() =~= es.drop_first());
            assert(json_entries(r) =~= seq![(key_bytes(k@), json_of(v))] + je.drop_first());
        } else {
            let r = seq![(k, v)] + es;
            assert(r.drop_first() =~= es);
            assert(json_entries(r) =~= seq![(key_bytes(k@), json_of(v))] + je);
        }
    }
}

/// The outcome of parsing from an offset: a value and the offset after it, or
/// an error code and its offset.
pub enum PRes {
    Value { v: Json, next: int },
    Fail { code: ErrorCode, at: int },
}

pub open spec fn is_ws(b: u8) -> bool {
    b == 32 || b == 9 || b == 10 || b == 13
}

pub open spec fn is_digit(b: u8) -> bool {
    48 <= b <= 57
}

/// The offset of the first byte at or after `i` that is not whitespace.
pub open spec fn ws_end(s: Seq<u8>, i: int) -> int
    decreases s.len() - i,
{
    if 0 <= i < s.len() && is_ws(s[i]) {
        ws_end(s, i + 1)
    } else {
        i
    }
}

pub proof fn lemma_ws_end(s: Seq<u8>, i: int)
    requires
        0 <= i <= s.len(),
    ensures
        i <= ws_end(s, i) <= s.len(),
        ws_end(s, i) < s.len() ==> !is_ws(s[ws_end(s, i)]),
    decreases s.len() - i,
{
    if i < s.len() && is_ws(s[i]) {
        lemma_ws_end(s, i + 1);
    }
}

/// The error of reading the rest `lit[k..]` of a keyword at offset `i`, if any.
pub open spec fn ident_err(s: Seq<u8>, i: int, lit: Seq<u8>, k: int) -> Option<(ErrorCode, int)>
    decreases lit.len() - k,
{
    if k >= lit.len() {
        None
    } else if i + k >= s.len() {
        Some((ErrorCode::EofWhileParsingValue, s.len() as int))
    } else if s[i + k] != lit[k] {
        Some((ErrorCode::ExpectedSomeIdent, i + k + 1))
    } else {
        ident_err(s, i, lit, k + 1)
    }
}

/// A keyword whose first byte stands at `j`.
pub open spec fn keyword_spec(s: Seq<u8>, j: int, lit: Seq<u8>, v: Json) -> PRes {
    match ident_err(s, j + 1, lit, 0) {
        Some((code, at)) => PRes::Fail { code, at },
        None => PRes::Value { v, next: j + 1 + lit.len() },
    }
}

/// A number whose first byte (a minus sign or a digit) stands at `j`.
pub open spec fn number_spec(s: Seq<u8>, j: int, in_memory: bool) -> PRes {
    let neg = s[j] == 45;
    let a = if neg { j + 1 } else { j };
    if a >= s.len() {
        PRes::Fail { code: ErrorCode::EofWhileParsingValue, at: s.len() as int }
    } else if !is_digit(s[a]) {
        PRes::Fail { code: ErrorCode::InvalidNumber, at: a + 1 }
    } else if s[a] == 48 && a + 1 < s.len() && is_digit(s[a + 1]) {
        PRes::Fail { code: ErrorCode::InvalidNumber, at: a + 2 }
    } else {
        let b = digits_end(s, a);
        let has_frac = b < s.len() && s[b] == 46;
        let f = b + 1;
        if has_frac && f >= s.len() {
            PRes::Fail { code: ErrorCode::EofWhileParsingValue, at: s.len() as int }
        } else if has_frac && !is_digit(s[f]) {
            PRes::Fail { code: ErrorCode::InvalidNumber, at: f + 1 }
        } else {
            let e0 = if has_frac { digits_end(s, f) } else { b };
            let has_exp = e0 < s.len() && (s[e0] == 101 || s[e0] == 69);
            let x = e0 + 1;
            let x2 = if x < s.len() && (s[x] == 43 || s[x] == 45) { x + 1 } else { x };
            if has_exp && x2 >= s.len() {
                PRes::Fail { code: ErrorCode::EofWhileParsingValue, at: s.len() as int }
            } else if has_exp && !is_digit(s[x2]) {
                PRes::Fail { code: ErrorCode::InvalidNumber, at: x2 + 1 }
            } else if has_frac || has_exp {
                let end = if has_exp { digits_end(s, x2) } else { e0 };
                PRes::Value { v: Json::Num(JNum::Float(s.subrange(j, end))), next: end }
            } else {
                let v = digits_value(s.subrange(a, b));
                let over = if in_memory || b >= s.len() { b } else { b + 1 };
                if !neg {
                    if v <= u64::MAX {
                        PRes::Value { v: Json::Num(JNum::Pos(v as u64)), next: b }
                    } else {
                        PRes::Fail { code: ErrorCode::NumberOutOfRange, at: over }
                    }
                } else if v == 0 {
                    PRes::Value { v: Json::Num(JNum::Pos(0)), next: b }
                } else if v <= 0x8000_0000_0000_0000 {
                    PRes::Value { v: Json::Num(JNum::Neg((-v) as i64)), next: b }
                } else {
                    PRes::Fail { code: ErrorCode::NumberOutOfRange, at: over }
                }
            }
        }
    }
}

/// Parsing one value at offset `i` (after optional whitespace), with `depth`
/// more levels of nesting allowed.
pub open spec fn value_spec(s: Seq<u8>, i: int, depth: int, in_memory: bool) -> PRes
    decreases s.len() - i, 0int,
{
    let j = ws_end(s, i);
    if i < 0 || j < i || j >= s.len() {
        PRes::Fail { code: ErrorCode::EofWhileParsingValue, at: s.len() as int }
    } else if s[j] == 110 {
        keyword_spec(s, j, seq![117u8, 108u8, 108u8], Json::Null)
    } else if s[j] == 116 {
        keyword_spec(s, j, seq![114u8, 117u8, 101u8], Json::Bool(true))
    } else if s[j] == 102 {
        keyword_spec(s, j, seq![97u8, 108u8, 115u8, 101u8], Json::Bool(false))
    } else if s[j] == 34 {
        match str_outcome(s, j + 1, true, in_memory) {
            Scan::Done { out, next } => PRes::Value { v: Json::Str(out), next },
            Scan::Fail { code, at } => PRes::Fail { code, at },
        }
    } else if s[j] == 45 || is_digit(s[j]) {
        number_spec(s, j, in_memory)
    } else if s[j] == 91 {
        if depth <= 0 {
            PRes::Fail { code: ErrorCode::RecursionLimitExceeded, at: j + 1 }
        } else {
            array_spec(s, j + 1, depth - 1, in_memory)
        }
    } else if s[j] == 123 {
        if depth <= 0 {
            PRes::Fail { code: ErrorCode::RecursionLimitExceeded, at: j + 1 }
        } else {
            object_spec(s, j + 1, depth - 1, in_memory)
        }
    } else {
        PRes::Fail { code: ErrorCode::ExpectedSomeValue, at: j + 1 }
    }
}

/// The items of an array whose `[` ends just before `i`.
pub open spec fn array_spec(s: Seq<u8>, i: int, depth: int, in_memory: bool) -> PRes
    decreases s.len() - i, 2int,
{
    let j = ws_end(s, i);
    if i < 0 || j < i || j >= s.len() {
        PRes::Fail { code: ErrorCode::EofWhileParsingList, at: s.len() as int }
    } else if s[j] == 93 {
        PRes::Value { v: Json::Arr(Seq::empty()), next: j + 1 }
    } else {
        items_spec(s, j, depth, Seq::empty(), in_memory)
    }
}

/// The items from offset `i` on, after the items `acc`.
pub open spec fn items_spec(s: Seq<u8>, i: int, depth: int, acc: Seq<Json>, in_memory: bool) -> PRes
    decreases s.len() - i, 1int,
{
    match value_spec(s, i, depth, in_memory) {
        PRes::Fail { code, at } => PRes::Fail { code, at },
        PRes::Value { v, next } => {
            let k = ws_end(s, next);
            if k < 0 || k >= s.len() {
                PRes::Fail { code: ErrorCode::EofWhileParsingList, at: s.len() as int }
            } else if s[k] == 44 {
                let k2 = ws_end(s, k + 1);
                if k2 < s.len() && s[k2] == 93 {
                    PRes::Fail { code: ErrorCode::TrailingComma, at: peeked_at(k2, in_memory) }
                } else if i < k2 <= s.len() {
                    items_spec(s, k2, depth, acc.push(v), in_memory)
                } else {
                    PRes::Fail { code: ErrorCode::EofWhileParsingList, at: s.len() as int }
                }
            } else if s[k] == 93 {
                PRes::Value { v: Json::Arr(acc.push(v)), next: k + 1 }
            } else {
                PRes::Fail { code: ErrorCode::ExpectedListCommaOrEnd, at: k + 1 }
            }
        },
    }
}

/// The entries of an object whose `{` ends just before `i`.
pub open spec fn object_spec(s: Seq<u8>, i: int, depth: int, in_memory: bool) -> PRes
    decreases s.len() - i, 2int,
{
    let j = ws_end(s, i);
    if i < 0 || j < i || j >= s.len() {
        PRes::Fail { code: ErrorCode::EofWhileParsingObject, at: s.len() as int }
    } else if s[j] == 125 {
        PRes::Value { v: Json::Obj(Seq::empty()), next: j + 1 }
    } else {
        entries_spec(s, j, depth, Seq::empty(), in_memory)
    }
}

/// The entries from offset `i` on, after the entries `es`.
pub open spec fn entries_spec(
    s: Seq<u8>,
    i: int,
    depth: int,
    es: Seq<(Seq<u8>, Json)>,
    in_memory: bool,
) -> PRes
    decreases s.len() - i, 1int,
{
    let k = ws_end(s, i);
    if i < 0 || k < i || k >= s.len() {
        PRes::Fail { code: ErrorCode::EofWhileParsingObject, at: s.len() as int }
    } else if s[k] != 34 {
        PRes::Fail { code: ErrorCode::KeyMustBeAString, at: k + 1 }
    } else {
        match str_outcome(s, k + 1, true, in_memory) {
            Scan::Fail { code, at } => PRes::Fail { code, at },
            Scan::Done { out, next } => {
                let c = ws_end(s, next);
                if c < i || c >= s.len() {
                    PRes::Fail { code: ErrorCode::EofWhileParsingObject, at: s.len() as int }
                } else if s[c] != 58 {
                    PRes::Fail { code: ErrorCode::ExpectedColon, at: c + 1 }
                } else {
                    match value_spec(s, c + 1, depth, in_memory) {
                        PRes::Fail { code, at } => PRes::Fail { code, at },
                        PRes::Value { v, next: p } => {
                            let es2 = json_insert(es, out, v);
                            let q = ws_end(s, p);
                            if q < 0 || q >= s.len() {
                                PRes::Fail { code: ErrorCode::EofWhileParsingObject, at: s.len() as int }
                            } else if s[q] == 44 {
                                let q2 = ws_end(s, q + 1);
                                if q2 < s.len() && s[q2] == 125 {
                                    PRes::Fail { code: ErrorCode::TrailingComma, at: peeked_at(q2, in_memory) }
                                } else if i < q2 <= s.len() {
                                    entries_spec(s, q2, depth, es2, in_memory)
                                } else {
                                    PRes::Fail { code: ErrorCode::EofWhileParsingObject, at: s.len() as int }
                                }
                            } else if s[q] == 125 {
                                PRes::Value { v: Json::Obj(es2), next: q + 1 }
                            } else {
                                PRes::Fail { code: ErrorCode::ExpectedObjectCommaOrEnd, at: q + 1 }
                            }
                        },
                    }
                }
            },
        }
    }
}

/// The deepest nesting of arrays and objects that the parser accepts.
pub open spec fn depth_limit() -> int {
    128
}

/// Parsing a whole input: one value with only whitespace around it.
pub open spec fn parse_outcome(s: Seq<u8>, in_memory: bool) -> PRes {
    match value_spec(s, 0, depth_limit(), in_memory) {
        PRes::Fail { code, at } => PRes::Fail { code, at },
        PRes::Value { v, next } => {
            let q = ws_end(s, next);
            if 0 <= q < s.len() {
                PRes::Fail { code: ErrorCode::TrailingCharacters, at: q + 1 }
            } else {
                PRes::Value { v, next: s.len() as int }
            }
        },
    }
}

} // verus!
