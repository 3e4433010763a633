//! The dynamic JSON value tree.

use vstd::prelude::*;
use crate::map::{JsonMap, get_spec, get_bytes_spec, key_bytes, key_index, lemma_get_bytes};
use crate::error::digits_value;
use vstd::string::StringSliceAdditionalSpecFns;
use vstd::slice::slice_subrange;

verus! {

/// A JSON number: a non-negative integer, a negative integer, or a
/// floating-point number kept as its decimal text.
#[derive(Debug, PartialEq)]
pub enum Number {
    PosInt(u64),
    NegInt(i64),
    Float(String),
}

/// Any JSON value.
#[derive(Debug, PartialEq)]
pub enum Value {
    Null,
    Bool(bool),
    Number(Number),
    String(String),
    Array(Vec<Value>),
    Object(JsonMap<String, Value>),
}

impl Number {
    /// Whether the number is an integer that fits `i64`.
    pub fn is_i64(&self) -> (r: bool)
        ensures
            r == (match *self {
                Number::PosInt(u) => u <= i64::MAX,
                Number::NegInt(_) => true,
                Number::Float(_) => false,
            }),
    {
        match self {
            Number::PosInt(u) => *u <= 9223372036854775807,
            Number::NegInt(_) => true,
            Number::Float(_) => false,
        }
    }

    /// Whether the number is a non-negative integer.
    pub fn is_u64(&self) -> (r: bool)
        ensures
            r == (*self is PosInt),
    {
        match self {
            Number::PosInt(_) => true,
            _ => false,
        }
    }

    /// Whether the number is a floating-point number.
    pub fn is_f64(&self) -> (r: bool)
        ensures
            r == (*self is Float),
    {
        match self {
            Number::Float(_) => true,
            _ => false,
        }
    }

    /// The number as an `i64`, if it is an integer that fits.
    pub fn as_i64(&self) -> (r: Option<i64>)
        ensures
            r == (match *self {
                Number::PosInt(u) => if u <= i64::MAX { Some(u as i64) } else { None },
                Number::NegInt(i) => Some(i),
                Number::Float(_) => None,
            }),
    {
        match self {
            Number::PosInt(u) => if *u <= 9223372036854775807 {
                Some(*u as i64)
            } else {
                None
            },
            Number::NegInt(i) => Some(*i),
            Number::Float(_) => None,
        }
    }

    /// The number as a `u64`, if it is a non-negative integer.
    pub fn as_u64(&self) -> (r: Option<u64>)
        ensures
            r == (match *self {
                Number::PosInt(u) => Some(u),
                _ => None,
            }),
    {
        match self {
            Number::PosInt(u) => Some(*u),
            _ => None,
        }
    }

    /// A number from a non-negative integer.
    pub fn from_u64(u: u64) -> (r: Number)
        ensures
            r == Number::PosInt(u),
    {
        Number::PosInt(u)
    }

    /// A number from a signed integer; a non-negative one is kept as such.
    pub fn from_i64(i: i64) -> (r: Number)
        ensures
            i >= 0 ==> r == Number::PosInt(i as u64),
            i < 0 ==> r == Number::NegInt(i),
    {
        if i >= 0 {
            Number::PosInt(i as u64)
        } else {
            Number::NegInt(i)
        }
    }
}

impl Value {
    /// The value under `key`, when this is an object that has it.
    pub fn get(&self, key: &str) -> (r: Option<&Value>)
        ensures
            match *self {
                Value::Object(m) => match r {
                    Some(v) => get_spec(m.spec_entries(), key@) == Some(*v),
                    None => get_spec(m.spec_entries(), key@) is None,
                },
                _ => r is None,
            },
    {
        match self {
            Value::Object(m) => m.get(key),
            _ => None,
        }
    }

    /// The item at `index`, when this is an array that long.
    pub fn get_index(&self, index: usize) -> (r: Option<&Value>)
        ensures
            match *self {
                Value::Array(a) => match r {
                    Some(v) => index < a@.len() && *v == a@[index as int],
                    None => index >= a@.len(),
                },
                _ => r is None,
            },
    {
        match self {
            Value::Array(a) => if index < a.len() {
                Some(&a[index])
            } else {
                None
            },
            _ => None,
        }
    }

    /// Whether this is an object.
    pub fn is_object(&self) -> (r: bool)
        ensures
            r == (*self is Object),
    {
        self.as_object().is_some()
    }

    /// The map of this object.
    pub fn as_object(&self) -> (r: Option<&JsonMap<String, Value>>)
        ensures
            match *self {
                Value::Object(m) => r == Some(&m),
                _ => r is None,
            },
    {
        match self {
            Value::Object(map) => Some(map),
            _ => None,
        }
    }

    /// Whether this is an array.
    pub fn is_array(&self) -> (r: bool)
        ensures
            r == (*self is Array),
    {
        self.as_array().is_some()
    }

    /// The items of this array.
    pub fn as_array(&self) -> (r: Option<&Vec<Value>>)
        ensures
            match *self {
                Value::Array(a) => r == Some(&a),
                _ => r is None,
            },
    {
        match self {
            Value::Array(array) => Some(array),
            _ => None,
        }
    }

    /// The map of this object, to change in place.
    pub fn as_object_mut(&mut self) -> (r: Option<&mut JsonMap<String, Value>>)
        ensures
            match *old(self) {
                Value::Object(m) => r matches Some(x) && *x == m && *final(self) == Value::Object(*final(x)),
                _ => r is None && *final(self) == *old(self),
            },
    {
        match self {
            Value::Object(map) => Some(map),
            _ => None,
        }
    }

    /// The value under `key`, when this is an object that has it, to change in
    /// place.
    pub fn get_mut(&mut self, key: &str) -> (r: Option<&mut Value>)
        requires
            *old(self) matches Value::Object(m) ==> m.well_formed(),
        ensures
            match *old(self) {
                Value::Object(m) => match get_spec(m.spec_entries(), key@) {
                    Some(v) => r matches Some(x) && *x == v && (*final(self) matches Value::Object(m2)
                        && m2.well_formed() && m2.spec_entries() == m.spec_entries().update(
                        key_index(m.spec_entries(), key@),
                        (m.spec_entries()[key_index(m.spec_entries(), key@)].0, *final(x)),
                    )),
                    None => r is None && *final(self) == *old(self),
                },
                _ => r is None && *final(self) == *old(self),
            },
    {
        match self {
            Value::Object(m) => m.get_mut(key),
            _ => None,
        }
    }

    /// The items of this array, to change in place.
    pub fn as_array_mut(&mut self) -> (r: Option<&mut Vec<Value>>)
        ensures
            match *old(self) {
                Value::Array(a) => r matches Some(items) && *items == a && *final(self) == Value::Array(*final(items)),
                _ => r is None && *final(self) == *old(self),
            },
    {
        match self {
            Value::Array(list) => Some(list),
            _ => None,
        }
    }

    /// Whether this is a string.
    pub fn is_string(&self) -> (r: bool)
        ensures
            r == (*self is String),
    {
        self.as_str().is_some()
    }

    /// The text of this string.
    pub fn as_str(&self) -> (r: Option<&str>)
        ensures
            match *self {
                Value::String(s) => r matches Some(t) && t@ == s@,
                _ => r is None,
            },
    {
        match self {
            Value::String(s) => Some(s.as_str()),
            _ => None,
        }
    }

    /// Whether this is a number.
    pub fn is_number(&self) -> (r: bool)
        ensures
            r == (*self is Number),
    {
        match self {
            Value::Number(_) => true,
            _ => false,
        }
    }

    /// Whether this is an integer that fits `i64`.
    pub fn is_i64(&self) -> (r: bool)
        ensures
            r == (match *self {
                Value::Number(Number::PosInt(u)) => u <= i64::MAX,
                Value::Number(Number::NegInt(_)) => true,
                _ => false,
            }),
    {
        match self {
            Value::Number(n) => n.is_i64(),
            _ => false,
        }
    }

    /// Whether this is a non-negative integer.
    pub fn is_u64(&self) -> (r: bool)
        ensures
            r == (*self matches Value::Number(Number::PosInt(_))),
    {
        match self {
            Value::Number(n) => n.is_u64(),
            _ => false,
        }
    }

    /// Whether this is a floating-point number.
    pub fn is_f64(&self) -> (r: bool)
        ensures
            r == (*self matches Value::Number(Number::Float(_))),
    {
        match self {
            Value::Number(n) => n.is_f64(),
            _ => false,
        }
    }

    /// This integer as an `i64`, if it fits.
    pub fn as_i64(&self) -> (r: Option<i64>)
        ensures
            r == (match *self {
                Value::Number(Number::PosInt(u)) => if u <= i64::MAX { Some(u as i64) } else { None },
                Value::Number(Number::NegInt(i)) => Some(i),
                _ => None,
            }),
    {
        match self {
            Value::Number(n) => n.as_i64(),
            _ => None,
        }
    }

    /// This integer as a `u64`, if it is not negative.
    pub fn as_u64(&self) -> (r: Option<u64>)
        ensures
            r == (match *self {
                Value::Number(Number::PosInt(u)) => Some(u),
                _ => None,
            }),
    {
        match self {
            Value::Number(n) => n.as_u64(),
            _ => None,
        }
    }

    /// Whether this is a boolean.
    pub fn is_boolean(&self) -> (r: bool)
        ensures
            r == (*self is Bool),
    {
        self.as_bool().is_some()
    }

    /// This boolean.
    pub fn as_bool(&self) -> (r: Option<bool>)
        ensures
            match *self {
                Value::Bool(b) => r == Some(b),
                _ => r is None,
            },
    {
        match self {
            Value::Bool(b) => Some(*b),
            _ => None,
        }
    }

    /// Whether this is null.
    pub fn is_null(&self) -> (r: bool)
        ensures
            r == (*self is Null),
    {
        self.as_null().is_some()
    }

    /// `Some(())` when this is null.
    pub fn as_null(&self) -> (r: Option<()>)
        ensures
            r is Some <==> *self is Null,
    {
        match self {
            Value::Null => Some(()),
            _ => None,
        }
    }

    /// Takes the value out, leaving null in its place.
    pub fn take(&mut self) -> (r: Value)
        ensures
            r == *old(self),
            *final(self) == Value::Null,
    {
        let mut out = Value::Null;
        core::mem::swap(self, &mut out);
        out
    }
}

impl Default for Value {
    fn default() -> (r: Value)
        ensures
            r == Value::Null,
    {
        Value::Null
    }
}


/// The end of the pointer token that starts at `i`: the next `/` or the end.
pub open spec fn token_end(p: Seq<u8>, i: int) -> int
    decreases p.len() - i,
{
    if i >= p.len() || i < 0 {
        p.len() as int
    } else if p[i] == 47 {
        i
    } else {
        token_end(p, i + 1)
    }
}

/// `t` with each `~` followed by `from` replaced by `to`, left to right.
pub open spec fn replace_tilde(t: Seq<u8>, from: u8, to: u8) -> Seq<u8>
    decreases t.len(),
{
    if t.len() == 0 {
        t
    } else if t.len() >= 2 && t[0] == 126 && t[1] == from {
        seq![to] + replace_tilde(t.subrange(2, t.len() as int), from, to)
    } else {
        seq![t[0]] + replace_tilde(t.drop_first(), from, to)
    }
}

/// A pointer token with `~1` read as `/`, then `~0` as `~`.
pub open spec fn unescape_token(t: Seq<u8>) -> Seq<u8> {
    replace_tilde(replace_tilde(t, 49, 47), 48, 126)
}

/// A key written as a pointer token: `~` as `~0`, `/` as `~1`.
pub open spec fn escape_token(k: Seq<u8>) -> Seq<u8>
    decreases k.len(),
{
    if k.len() == 0 {
        k
    } else if k[0] == 126 {
        seq![126u8, 48u8] + escape_token(k.drop_first())
    } else if k[0] == 47 {
        seq![126u8, 49u8] + escape_token(k.drop_first())
    } else {
        seq![k[0]] + escape_token(k.drop_first())
    }
}

/// The array index that a token names: decimal digits, without a leading zero
/// unless it is `0`, that fit `usize`.
pub open spec fn array_index(t: Seq<u8>) -> Option<int> {
    if t.len() == 0 || (t[0] == 48 && t.len() != 1) || exists|j: int| 0 <= j < t.len() && !(48 <= #[trigger] t[j] <= 57) {
        None
    } else if digits_value(t) > usize::MAX {
        None
    } else {
        Some(digits_value(t) as int)
    }
}

/// The child of `v` that token `t` names.
pub open spec fn child(v: Value, t: Seq<u8>) -> Option<Value> {
    match v {
        Value::Object(m) => get_bytes_spec(m.spec_entries(), t),
        Value::Array(a) => match array_index(t) {
            Some(k) => if k < a@.len() { Some(a@[k]) } else { None },
            None => None,
        },
        _ => None,
    }
}

/// Follows the tokens of pointer `p` from offset `i` on, starting at `v`.
pub open spec fn walk(v: Value, p: Seq<u8>, i: int) -> Option<Value>
    decreases p.len() - i,
{
    if i < 0 || i > p.len() {
        None
    } else {
        let e = token_end(p, i);
        match child(v, unescape_token(p.subrange(i, e))) {
            None => None,
            Some(c) => if e >= p.len() {
                Some(c)
            } else if e >= i {
                walk(c, p, e + 1)
            } else {
                None
            },
        }
    }
}

/// What JSON pointer `p` (as bytes) names in `v`.
pub open spec fn pointer_spec(v: Value, p: Seq<u8>) -> Option<Value> {
    if p.len() == 0 {
        Some(v)
    } else if p[0] != 47 {
        None
    } else {
        walk(v, p, 1)
    }
}

proof fn lemma_token_end(p: Seq<u8>, i: int)
    requires
        0 <= i <= p.len(),
    ensures
        i <= token_end(p, i) <= p.len(),
        token_end(p, i) < p.len() ==> p[token_end(p, i)] == 47,
    decreases p.len() - i,
{
    if i < p.len() && p[i] != 47 {
        lemma_token_end(p, i + 1);
    }
}

fn token_end_of(p: &[u8], i: usize) -> (r: usize)
    requires
        i <= p@.len(),
    ensures
        r == token_end(p@, i as int),
{
    let mut k = i;
    while k < p.len() && p[k] != 47
        invariant
            i <= k <= p@.len(),
            token_end(p@, i as int) == token_end(p@, k as int),
        decreases p@.len() - k,
    {
        k = k + 1;
    }
    k
}

fn replace_tilde_exec(t: &[u8], from: u8, to: u8) -> (r: Vec<u8>)
    ensures
        r@ == replace_tilde(t@, from, to),
{
    let mut out: Vec<u8> = Vec::new();
    let mut k: usize = 0;
    assert(t@.subrange(0, t@.len() as int) =~= t@);
    while k < t.len()
        invariant
            k <= t@.len(),
            replace_tilde(t@, from, to) == out@ + replace_tilde(t@.subrange(k as int, t@.len() as int), from, to),
        decreases t@.len() - k,
    {
        let ghost rest = t@.subrange(k as int, t@.len() as int);
        let ghost before = out@;
        if k + 1 < t.len() && t[k] == 126 && t[k + 1] == from {
            assert(rest.subrange(2, rest.len() as int) =~= t@.subrange(k + 2, t@.len() as int));
            out.push(to);
            k = k + 2;
            assert(before + (seq![to] + replace_tilde(t@.subrange(k as int, t@.len() as int), from, to)) =~= out@ + replace_tilde(t@.subrange(k as int, t@.len() as int), from, to));
        } else {
            assert(rest.drop_first() =~= t@.subrange(k + 1, t@.len() as int));
            out.push(t[k]);
            k = k + 1;
            assert(before + (seq![rest[0]] + replace_tilde(t@.subrange(k as int, t@.len() as int), from, to)) =~= out@ + replace_tilde(t@.subrange(k as int, t@.len() as int), from, to));
        }
    }
    assert(t@.subrange(k as int, t@.len() as int) =~= Seq::<u8>::empty());
    assert(out@ + Seq::<u8>::empty() =~= out@);
    out
}

/// Reads an array index from a token.
fn parse_index(t: &[u8]) -> (r: Option<usize>)
    ensures
        match array_index(t@) {
            Some(k) => r == Some(k as usize),
            None => r is None,
        },
{
    if t.len() == 0 || (t[0] == 48 && t.len() != 1) {
        return None;
    }
    let mut v: usize = 0;
    let mut k: usize = 0;
    while k < t.len()
        invariant
            k <= t@.len(),
            t@.len() > 0,
            !(t@[0] == 48 && t@.len() != 1),
            forall|j: int| 0 <= j < k ==> 48 <= #[trigger] t@[j] <= 57,
            v == digits_value(t@.subrange(0, k as int)),
        decreases t@.len() - k,
    {
        let d = t[k];
        if d < 48 || d > 57 {
            assert(!(48 <= t@[k as int] <= 57));
            return None;
        }
        let dv = (d - 48) as usize;
        let ghost prev = t@.subrange(0, k as int);
        let ghost next = t@.subrange(0, k + 1);
        assert(next.drop_last() =~= prev);
        assert(digits_value(next) == digits_value(prev) * 10 + dv);
        if v > (usize::MAX - dv) / 10 {
            assert(digits_value(next) > usize::MAX) by (nonlinear_arith)
                requires
                    v > (usize::MAX - dv) / 10,
                    dv <= 9,
                    digits_value(next) == v * 10 + dv,
            ;
            proof {
                if forall|j: int| 0 <= j < t@.len() ==> 48 <= #[trigger] t@[j] <= 57 {
                    lemma_digits_value_prefix(t@, k + 1);
                }
            }
            return None;
        }
        assert(v * 10 + dv <= usize::MAX) by (nonlinear_arith)
            requires
                v <= (usize::MAX - dv) / 10,
                dv <= 9,
        ;
        v = v * 10 + dv;
        k = k + 1;
    }
    assert(t@.subrange(0, k as int) =~= t@);
    Some(v)
}

/// A longer run of digits is worth at least as much as its prefix.
proof fn lemma_digits_value_prefix(t: Seq<u8>, k: int)
    requires
        0 <= k <= t.len(),
        forall|j: int| 0 <= j < t.len() ==> 48 <= #[trigger] t[j] <= 57,
    ensures
        digits_value(t) >= digits_value(t.subrange(0, k)),
    decreases t.len() - k,
{
    if k < t.len() {
        lemma_digits_value_prefix(t, k + 1);
        let next = t.subrange(0, k + 1);
        assert(next.drop_last() =~= t.subrange(0, k));
    } else {
        assert(t.subrange(0, k) =~= t);
    }
}

impl Value {
    /// The child that a token names: an object's entry by key, or an array's
    /// item by index.
    fn child_of(&self, token: &[u8]) -> (r: Option<&Value>)
        ensures
            match child(*self, token@) {
                Some(c) => r matches Some(v) && *v == c,
                None => r is None,
            },
    {
        match self {
            Value::Object(m) => m.get_by_bytes(token),
            Value::Array(a) => match parse_index(token) {
                Some(k) => if k < a.len() {
                    Some(&a[k])
                } else {
                    None
                },
                None => None,
            },
            _ => None,
        }
    }

    /// The value that a JSON pointer names: `/`-separated tokens, in each of
    /// which `~1` stands for `/` and `~0` for `~`; the empty pointer names the
    /// value itself.
    pub fn pointer(&self, pointer: &str) -> (r: Option<&Value>)
        ensures
            match pointer_spec(*self, pointer.spec_bytes()) {
                Some(c) => r matches Some(v) && *v == c,
                None => r is None,
            },
    {
        let p = pointer.as_bytes();
        if p.len() == 0 {
            return Some(self);
        }
        if p[0] != 47 {
            return None;
        }
        let mut target: &Value = self;
        let mut i: usize = 1;
        loop
            invariant
                p@ == pointer.spec_bytes(),
                1 <= i <= p@.len(),
                pointer_spec(*self, p@) == walk(*target, p@, i as int),
            decreases p@.len() - i,
        {
            let e = token_end_of(p, i);
            proof {
                lemma_token_end(p@, i as int);
            }
            let once = replace_tilde_exec(slice_subrange(p, i, e), 49, 47);
            let token = replace_tilde_exec(once.as_slice(), 48, 126);
            match target.child_of(token.as_slice()) {
                None => return None,
                Some(c) => {
                    if e >= p.len() {
                        return Some(c);
                    }
                    target = c;
                    i = e + 1;
                },
            }
        }
    }
}

proof fn lemma_unescape_first_pass(k: Seq<u8>)
    ensures
        replace_tilde(escape_token(k), 49, 47) == keep_slash(k),
    decreases k.len(),
{
    if k.len() > 0 {
        let rest = k.drop_first();
        lemma_unescape_first_pass(rest);
        let er = escape_token(rest);
        if k[0] == 126 {
            let x = seq![126u8, 48u8] + er;
            let y = seq![48u8] + er;
            assert(x.drop_first() =~= y);
            assert(y.drop_first() =~= er);
            assert(replace_tilde(y, 49, 47) == seq![48u8] + replace_tilde(er, 49, 47));
            assert(replace_tilde(x, 49, 47) == seq![126u8] + replace_tilde(y, 49, 47));
            assert(seq![126u8] + (seq![48u8] + keep_slash(rest)) =~= seq![126u8, 48u8] + keep_slash(rest));
        } else if k[0] == 47 {
            let x = seq![126u8, 49u8] + er;
            assert(x.subrange(2, x.len() as int) =~= er);
            assert(replace_tilde(x, 49, 47) == seq![47u8] + replace_tilde(er, 49, 47));
        } else {
            let x = seq![k[0]] + er;
            assert(x.drop_first() =~= er);
            assert(replace_tilde(x, 49, 47) == seq![k[0]] + replace_tilde(er, 49, 47));
        }
    }
}

/// A key with `~` written as `~0` and `/` kept.
pub open spec fn keep_slash(k: Seq<u8>) -> Seq<u8>
    decreases k.len(),
{
    if k.len() == 0 {
        k
    } else if k[0] == 126 {
        seq![126u8, 48u8] + keep_slash(k.drop_first())
    } else {
        seq![k[0]] + keep_slash(k.drop_first())
    }
}

proof fn lemma_unescape_second_pass(k: Seq<u8>)
    ensures
        replace_tilde(keep_slash(k), 48, 126) == k,
    decreases k.len(),
{
    if k.len() > 0 {
        let rest = k.drop_first();
        lemma_unescape_second_pass(rest);
        let er = keep_slash(rest);
        if k[0] == 126 {
            let x = seq![126u8, 48u8] + er;
            assert(x.subrange(2, x.len() as int) =~= er);
        } else {
            let x = seq![k[0]] + er;
            assert(x.drop_first() =~= er);
        }
        assert(seq![k[0]] + rest =~= k);
    }
}

proof fn lemma_escape_no_slash(k: Seq<u8>)
    ensures
        forall|j: int| 0 <= j < escape_token(k).len() ==> escape_token(k)[j] != 47,
    decreases k.len(),
{
    if k.len() > 0 {
        lemma_escape_no_slash(k.drop_first());
        let er = escape_token(k.drop_first());
        assert forall|j: int| 0 <= j < escape_token(k).len() implies escape_token(k)[j] != 47 by {
            if k[0] == 126 || k[0] == 47 {
                if j >= 2 {
                    assert(escape_token(k)[j] == er[j - 2]);
                }
            } else {
                if j >= 1 {
                    assert(escape_token(k)[j] == er[j - 1]);
                }
            }
        }
    }
}

proof fn lemma_token_end_none(p: Seq<u8>, i: int)
    requires
        0 <= i <= p.len(),
        forall|j: int| i <= j < p.len() ==> p[j] != 47,
    ensures
        token_end(p, i) == p.len(),
    decreases p.len() - i,
{
    if i < p.len() {
        lemma_token_end_none(p, i + 1);
    }
}

/// A key of an object, escaped as a pointer token after a `/`, names that
/// key's value, whatever `/` and `~` the key holds.
pub proof fn lemma_pointer_to_key(m: JsonMap<String, Value>, k: Seq<char>)
    ensures
        pointer_spec(Value::Object(m), seq![47u8] + escape_token(key_bytes(k))) == get_spec(m.spec_entries(), k),
{
    let kb = key_bytes(k);
    let p = seq![47u8] + escape_token(kb);
    lemma_escape_no_slash(kb);
    assert forall|j: int| 1 <= j < p.len() implies p[j] != 47 by {
        assert(p[j] == escape_token(kb)[j - 1]);
    }
    lemma_token_end_none(p, 1);
    assert(p.subrange(1, p.len() as int) =~= escape_token(kb));
    lemma_unescape_first_pass(kb);
    lemma_unescape_second_pass(kb);
    lemma_get_bytes(m.spec_entries(), k);
}

} // verus!
