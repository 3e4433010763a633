//! Emitting JSON text: the events of a value, the formatters that turn events
//! into bytes, and the serializer that drives them.

use vstd::prelude::*;
use vstd::utf8::*;
use vstd::string::StringSliceAdditionalSpecFns;
use vstd::slice::slice_subrange;
use crate::map::{JsonMap, key_bytes};
use crate::value::{Number, Value};
use crate::error::{Error, ErrorCode, Result};
use crate::read::{string_from_utf8, push_utf8, unit_utf8, lemma_ascii_valid_utf8};

verus! {

/// An escape that the emitter writes for a byte of a string.
#[derive(Clone, Copy, Debug, PartialEq, Eq, Structural)]
pub enum CharEscape {
    Quote,
    ReverseSolidus,
    Solidus,
    Backspace,
    FormFeed,
    LineFeed,
    CarriageReturn,
    Tab,
    AsciiControl(u8),
}

/// One step of emission, as the serializer hands it to a formatter.
pub enum Event {
    Null,
    Bool(bool),
    Number(Seq<u8>),
    BeginString,
    EndString,
    Fragment(Seq<u8>),
    Escape(CharEscape),
    BeginArray,
    EndArray,
    BeginArrayValue(bool),
    EndArrayValue,
    BeginObject,
    EndObject,
    BeginObjectKey(bool),
    EndObjectKey,
    BeginObjectValue,
    EndObjectValue,
    RawFragment(Seq<u8>),
}

/// The decimal digits of `n`.
pub open spec fn decimal(n: nat) -> Seq<u8>
    decreases n,
{
    if n < 10 {
        seq![(48 + n) as u8]
    } else {
        decimal(n / 10) + seq![(48 + n % 10) as u8]
    }
}

/// The decimal text of an integer, with a minus sign when negative.
pub open spec fn int_text(i: int) -> Seq<u8> {
    if i < 0 {
        seq![45u8] + decimal((-i) as nat)
    } else {
        decimal(i as nat)
    }
}

/// The text of a JSON number.
pub open spec fn number_text(n: Number) -> Seq<u8> {
    match n {
        Number::PosInt(u) => int_text(u as int),
        Number::NegInt(i) => int_text(i as int),
        Number::Float(t) => key_bytes(t@),
    }
}

/// Relies on `itoa::Buffer::format`, which writes the decimal form of an
/// integer, with a leading `-` when it is negative.
#[verifier::external_body]
pub(crate) fn format_integer(v: i128) -> (r: Vec<u8>)
    ensures
        r@ == int_text(v as int),
{
    let mut buffer = itoa::Buffer::new();
    buffer.format(v).as_bytes().to_vec()
}

/// The escape that a byte of a string needs, if any: quote, backslash and the
/// control bytes.
pub open spec fn escape_of(b: u8) -> Option<CharEscape> {
    if b == 34 {
        Some(CharEscape::Quote)
    } else if b == 92 {
        Some(CharEscape::ReverseSolidus)
    } else if b == 8 {
        Some(CharEscape::Backspace)
    } else if b == 9 {
        Some(CharEscape::Tab)
    } else if b == 10 {
        Some(CharEscape::LineFeed)
    } else if b == 12 {
        Some(CharEscape::FormFeed)
    } else if b == 13 {
        Some(CharEscape::CarriageReturn)
    } else if b < 0x20 {
        Some(CharEscape::AsciiControl(b))
    } else {
        None
    }
}

/// A lowercase hex digit.
pub open spec fn hex_digit(d: u8) -> u8 {
    if d < 10 {
        (48 + d) as u8
    } else {
        (87 + d) as u8
    }
}

/// The text of an escape.
pub open spec fn escape_text(e: CharEscape) -> Seq<u8> {
    match e {
        CharEscape::Quote => seq![92u8, 34u8],
        CharEscape::ReverseSolidus => seq![92u8, 92u8],
        CharEscape::Solidus => seq![92u8, 47u8],
        CharEscape::Backspace => seq![92u8, 98u8],
        CharEscape::FormFeed => seq![92u8, 102u8],
        CharEscape::LineFeed => seq![92u8, 110u8],
        CharEscape::CarriageReturn => seq![92u8, 114u8],
        CharEscape::Tab => seq![92u8, 116u8],
        CharEscape::AsciiControl(b) => seq![92u8, 117u8, 48u8, 48u8, hex_digit(b / 16), hex_digit(b % 16)],
    }
}

/// The events of the contents of a string from offset `i`, the plain run
/// starting at `start`.
pub open spec fn contents_events(b: Seq<u8>, start: int, i: int) -> Seq<Event>
    decreases b.len() - i,
{
    if i >= b.len() {
        if start < b.len() {
            seq![Event::Fragment(b.subrange(start, b.len() as int))]
        } else {
            Seq::empty()
        }
    } else if escape_of(b[i]) is Some {
        (if start < i {
            seq![Event::Fragment(b.subrange(start, i))]
        } else {
            Seq::empty()
        }) + seq![Event::Escape(escape_of(b[i])->0)] + contents_events(b, i + 1, i + 1)
    } else {
        contents_events(b, start, i + 1)
    }
}

/// The events of a string with bytes `b`.
pub open spec fn string_events(b: Seq<u8>) -> Seq<Event> {
    seq![Event::BeginString] + contents_events(b, 0, 0) + seq![Event::EndString]
}

/// The events of a value.
pub open spec fn value_events(v: Value) -> Seq<Event>
    decreases v, 2int,
    via value_events_decreases
{
    match v {
        Value::Null => seq![Event::Null],
        Value::Bool(b) => seq![Event::Bool(b)],
        Value::Number(n) => seq![Event::Number(number_text(n))],
        Value::String(s) => string_events(key_bytes(s@)),
        Value::Array(a) => if a@.len() == 0 {
            seq![Event::BeginArray, Event::EndArray]
        } else {
            seq![Event::BeginArray] + items_events(a@, true) + seq![Event::EndArray]
        },
        Value::Object(m) => if m.spec_entries().len() == 0 {
            seq![Event::BeginObject, Event::EndObject]
        } else {
            seq![Event::BeginObject] + entries_events(m.spec_entries(), true) + seq![Event::EndObject]
        },
    }
}

/// The events of the items of an array.
pub open spec fn items_events(a: Seq<Value>, first: bool) -> Seq<Event>
    decreases a, 1int,
{
    if a.len() == 0 {
        Seq::empty()
    } else {
        seq![Event::BeginArrayValue(first)] + value_events(a[0]) + seq![Event::EndArrayValue]
            + items_events(a.drop_first(), false)
    }
}

/// The events of the entries of an object.
pub open spec fn entries_events(es: Seq<(String, Value)>, first: bool) -> Seq<Event>
    decreases es, 1int,
{
    if es.len() == 0 {
        Seq::empty()
    } else {
        seq![Event::BeginObjectKey(first)] + string_events(key_bytes(es[0].0@)) + seq![
            Event::EndObjectKey,
            Event::BeginObjectValue,
        ] + value_events(es[0].1) + seq![Event::EndObjectValue] + entries_events(
            es.drop_first(),
            false,
        )
    }
}

#[via_fn]
proof fn value_events_decreases(v: Value) {
    match v {
        Value::Object(m) => {
            m.lemma_entries_decrease();
        },
        Value::Array(a) => {
            assert(decreases_to!(a => a@));
        },
        _ => {},
    }
}

/// What the compact formatter writes for an event: no whitespace at all.
pub open spec fn compact_text(e: Event) -> Seq<u8> {
    match e {
        Event::Null => seq![110u8, 117u8, 108u8, 108u8],
        Event::Bool(b) => if b {
            seq![116u8, 114u8, 117u8, 101u8]
        } else {
            seq![102u8, 97u8, 108u8, 115u8, 101u8]
        },
        Event::Number(t) => t,
        Event::BeginString => seq![34u8],
        Event::EndString => seq![34u8],
        Event::Fragment(f) => f,
        Event::Escape(c) => escape_text(c),
        Event::BeginArray => seq![91u8],
        Event::EndArray => seq![93u8],
        Event::BeginArrayValue(first) => if first { Seq::empty() } else { seq![44u8] },
        Event::EndArrayValue => Seq::empty(),
        Event::BeginObject => seq![123u8],
        Event::EndObject => seq![125u8],
        Event::BeginObjectKey(first) => if first { Seq::empty() } else { seq![44u8] },
        Event::EndObjectKey => Seq::empty(),
        Event::BeginObjectValue => seq![58u8],
        Event::EndObjectValue => Seq::empty(),
        Event::RawFragment(f) => f,
    }
}

/// `s` written `n` times.
pub open spec fn repeat(s: Seq<u8>, n: nat) -> Seq<u8>
    decreases n,
{
    if n == 0 {
        Seq::empty()
    } else {
        repeat(s, (n - 1) as nat) + s
    }
}

/// The nesting level after opening a container.
pub open spec fn level_in(n: usize) -> usize {
    if n < usize::MAX {
        (n + 1) as usize
    } else {
        n
    }
}

/// The nesting level after closing a container.
pub open spec fn level_out(n: usize) -> usize {
    if n > 0 {
        (n - 1) as usize
    } else {
        0
    }
}

/// What the indenting formatter writes for an event, at nesting level
/// `level`, with `has_value` telling whether the innermost container has an
/// item, and `ind` the indentation of one level.
pub open spec fn pretty_text(level: usize, has_value: bool, ind: Seq<u8>, e: Event) -> Seq<u8> {
    match e {
        Event::EndArray => if has_value {
            seq![10u8] + repeat(ind, level_out(level) as nat) + seq![93u8]
        } else {
            seq![93u8]
        },
        Event::EndObject => if has_value {
            seq![10u8] + repeat(ind, level_out(level) as nat) + seq![125u8]
        } else {
            seq![125u8]
        },
        Event::BeginArrayValue(first) | Event::BeginObjectKey(first) => (if first {
            seq![10u8]
        } else {
            seq![44u8, 10u8]
        }) + repeat(ind, level as nat),
        Event::BeginObjectValue => seq![58u8, 32u8],
        _ => compact_text(e),
    }
}

pub open spec fn pretty_indent_after(level: usize, e: Event) -> usize {
    match e {
        Event::BeginArray | Event::BeginObject => level_in(level),
        Event::EndArray | Event::EndObject => level_out(level),
        _ => level,
    }
}

pub open spec fn pretty_has_value_after(has_value: bool, e: Event) -> bool {
    match e {
        Event::BeginArray | Event::BeginObject => false,
        Event::EndArrayValue | Event::EndObjectValue => true,
        _ => has_value,
    }
}

fn step_in(n: usize) -> (r: usize)
    ensures
        r == level_in(n),
{
    if n < usize::MAX {
        n + 1
    } else {
        n
    }
}

fn step_out(n: usize) -> (r: usize)
    ensures
        r == level_out(n),
{
    if n > 0 {
        n - 1
    } else {
        0
    }
}

/// Appends `s` to `writer`.
fn extend(writer: &mut Vec<u8>, s: &[u8])
    ensures
        final(writer)@ == old(writer)@ + s@,
{
    let mut k: usize = 0;
    while k < s.len()
        invariant
            k <= s@.len(),
            writer@ == old(writer)@ + s@.subrange(0, k as int),
        decreases s@.len() - k,
    {
        writer.push(s[k]);
        k = k + 1;
        assert(writer@ =~= old(writer)@ + s@.subrange(0, k as int));
    }
    assert(s@.subrange(0, s@.len() as int) =~= s@);
}

/// Writes `s` `n` times.
fn indent(writer: &mut Vec<u8>, n: usize, s: &[u8])
    ensures
        final(writer)@ == old(writer)@ + repeat(s@, n as nat),
{
    let mut k: usize = 0;
    while k < n
        invariant
            k <= n,
            writer@ == old(writer)@ + repeat(s@, k as nat),
        decreases n - k,
    {
        extend(writer, s);
        k = k + 1;
        assert(writer@ =~= old(writer)@ + repeat(s@, k as nat));
    }
}

fn hex_digit_of(d: u8) -> (r: u8)
    requires
        d < 16,
    ensures
        r == hex_digit(d),
{
    if d < 10 {
        48 + d
    } else {
        87 + d
    }
}

fn write_escape(writer: &mut Vec<u8>, char_escape: CharEscape)
    ensures
        final(writer)@ == old(writer)@ + escape_text(char_escape),
{
    let ghost before = writer@;
    writer.push(92u8);
    match char_escape {
        CharEscape::Quote => writer.push(34u8),
        CharEscape::ReverseSolidus => writer.push(92u8),
        CharEscape::Solidus => writer.push(47u8),
        CharEscape::Backspace => writer.push(98u8),
        CharEscape::FormFeed => writer.push(102u8),
        CharEscape::LineFeed => writer.push(110u8),
        CharEscape::CarriageReturn => writer.push(114u8),
        CharEscape::Tab => writer.push(116u8),
        CharEscape::AsciiControl(byte) => {
            writer.push(117u8);
            writer.push(48u8);
            writer.push(48u8);
            writer.push(hex_digit_of(byte / 16));
            writer.push(hex_digit_of(byte % 16));
        },
    }
    assert(writer@ =~= before + escape_text(char_escape));
}

impl CharEscape {
    /// The escape of `byte`, from its class in the escape table.
    pub fn from_escape_table(escape: u8, byte: u8) -> (r: CharEscape)
        requires
            escape == escape_class(byte),
            escape != 0,
        ensures
            escape_of(byte) == Some(r),
    {
        if escape == 98 {
            CharEscape::Backspace
        } else if escape == 116 {
            CharEscape::Tab
        } else if escape == 110 {
            CharEscape::LineFeed
        } else if escape == 102 {
            CharEscape::FormFeed
        } else if escape == 114 {
            CharEscape::CarriageReturn
        } else if escape == 34 {
            CharEscape::Quote
        } else if escape == 92 {
            CharEscape::ReverseSolidus
        } else {
            CharEscape::AsciiControl(byte)
        }
    }
}

/// The class of a byte in the escape table: the letter of its short escape,
/// `u` for another control byte, or 0 when it needs no escape.
pub open spec fn escape_class(b: u8) -> u8 {
    if b == 8 {
        98
    } else if b == 9 {
        116
    } else if b == 10 {
        110
    } else if b == 12 {
        102
    } else if b == 13 {
        114
    } else if b == 34 {
        34
    } else if b == 92 {
        92
    } else if b < 0x20 {
        117
    } else {
        0
    }
}

fn escape_class_of(b: u8) -> (r: u8)
    ensures
        r == escape_class(b),
{
    if b == 8 {
        98
    } else if b == 9 {
        116
    } else if b == 10 {
        110
    } else if b == 12 {
        102
    } else if b == 13 {
        114
    } else if b == 34 {
        34
    } else if b == 92 {
        92
    } else if b < 0x20 {
        117
    } else {
        0
    }
}

/// The formatter that writes no whitespace.
#[derive(Clone, Copy, Debug)]
pub struct CompactFormatter;

/// The formatter that writes each item and entry on a line of its own,
/// indented by `indent` per level.
#[derive(Clone, Copy, Debug)]
pub struct PrettyFormatter<'a> {
    current_indent: usize,
    has_value: bool,
    indent: &'a [u8],
}

impl<'a> PrettyFormatter<'a> {
    pub closed spec fn spec_level(&self) -> usize {
        self.current_indent
    }

    pub closed spec fn spec_indent(&self) -> Seq<u8> {
        self.indent@
    }

    pub closed spec fn spec_has_value(&self) -> bool {
        self.has_value
    }

    /// A formatter that indents by two spaces.
    pub fn new() -> (r: Self)
        ensures
            r.spec_level() == 0,
            !r.spec_has_value(),
            r.spec_indent() == seq![32u8, 32u8],
    {
        let two = "  ";
        proof {
            reveal_strlit("  ");
        }
        let bytes = two.as_bytes();
        proof {
            assert(two@ =~= seq![' ', ' ']);
            let rest = two@.drop_first();
            assert(rest.drop_first() =~= Seq::<char>::empty());
            assert((32u32 & 0x7F) as u8 == 32u8) by (bit_vector);
            assert(encode_utf8(rest.drop_first()) =~= Seq::<u8>::empty());
            assert(encode_utf8(rest) =~= seq![32u8]);
            assert(encode_utf8(two@) =~= seq![32u8, 32u8]);
        }
        let r = PrettyFormatter::with_indent(bytes);
        r
    }

    /// A formatter that indents by `indent` per level.
    pub fn with_indent(indent: &'a [u8]) -> (r: Self)
        ensures
            r.spec_level() == 0,
            !r.spec_has_value(),
            r.spec_indent() == indent@,
    {
        PrettyFormatter { current_indent: 0, has_value: false, indent }
    }
}

/// Turns emission events into bytes. `emit` is what an event writes, and
/// `after` the formatter's state after it.
pub trait Formatter: Sized {
    spec fn emit(&self, e: Event) -> Seq<u8>;

    spec fn after(&self, e: Event) -> Self;

    /// Writes `null`.
    fn write_null(&mut self, writer: &mut Vec<u8>)
        ensures
            final(writer)@ == old(writer)@ + old(self).emit(Event::Null),
            *final(self) == old(self).after(Event::Null),
    ;

    /// Writes `true` or `false`.
    fn write_bool(&mut self, writer: &mut Vec<u8>, value: bool)
        ensures
            final(writer)@ == old(writer)@ + old(self).emit(Event::Bool(value)),
            *final(self) == old(self).after(Event::Bool(value)),
    ;

    /// Writes a signed integer.
    fn write_i64(&mut self, writer: &mut Vec<u8>, value: i64)
        ensures
            final(writer)@ == old(writer)@ + old(self).emit(Event::Number(int_text(value as int))),
            *final(self) == old(self).after(Event::Number(int_text(value as int))),
    ;

    /// Writes an unsigned integer.
    fn write_u64(&mut self, writer: &mut Vec<u8>, value: u64)
        ensures
            final(writer)@ == old(writer)@ + old(self).emit(Event::Number(int_text(value as int))),
            *final(self) == old(self).after(Event::Number(int_text(value as int))),
    ;

    /// Writes the text of a number as it is.
    fn write_number_str(&mut self, writer: &mut Vec<u8>, value: &[u8])
        ensures
            final(writer)@ == old(writer)@ + old(self).emit(Event::Number(value@)),
            *final(self) == old(self).after(Event::Number(value@)),
    ;

    /// Opens a string.
    fn begin_string(&mut self, writer: &mut Vec<u8>)
        ensures
            final(writer)@ == old(writer)@ + old(self).emit(Event::BeginString),
            *final(self) == old(self).after(Event::BeginString),
    ;

    /// Closes a string.
    fn end_string(&mut self, writer: &mut Vec<u8>)
        ensures
            final(writer)@ == old(writer)@ + old(self).emit(Event::EndString),
            *final(self) == old(self).after(Event::EndString),
    ;

    /// Writes a run of string bytes that need no escape.
    fn write_string_fragment(&mut self, writer: &mut Vec<u8>, fragment: &[u8])
        ensures
            final(writer)@ == old(writer)@ + old(self).emit(Event::Fragment(fragment@)),
            *final(self) == old(self).after(Event::Fragment(fragment@)),
    ;

    /// Writes an escape.
    fn write_char_escape(&mut self, writer: &mut Vec<u8>, char_escape: CharEscape)
        ensures
            final(writer)@ == old(writer)@ + old(self).emit(Event::Escape(char_escape)),
            *final(self) == old(self).after(Event::Escape(char_escape)),
    ;

    /// Opens an array.
    fn begin_array(&mut self, writer: &mut Vec<u8>)
        ensures
            final(writer)@ == old(writer)@ + old(self).emit(Event::BeginArray),
            *final(self) == old(self).after(Event::BeginArray),
    ;

    /// Closes an array.
    fn end_array(&mut self, writer: &mut Vec<u8>)
        ensures
            final(writer)@ == old(writer)@ + old(self).emit(Event::EndArray),
            *final(self) == old(self).after(Event::EndArray),
    ;

    /// Starts an item of an array.
    fn begin_array_value(&mut self, writer: &mut Vec<u8>, first: bool)
        ensures
            final(writer)@ == old(writer)@ + old(self).emit(Event::BeginArrayValue(first)),
            *final(self) == old(self).after(Event::BeginArrayValue(first)),
    ;

    /// Ends an item of an array.
    fn end_array_value(&mut self, writer: &mut Vec<u8>)
        ensures
            final(writer)@ == old(writer)@ + old(self).emit(Event::EndArrayValue),
            *final(self) == old(self).after(Event::EndArrayValue),
    ;

    /// Opens an object.
    fn begin_object(&mut self, writer: &mut Vec<u8>)
        ensures
            final(writer)@ == old(writer)@ + old(self).emit(Event::BeginObject),
            *final(self) == old(self).after(Event::BeginObject),
    ;

    /// Closes an object.
    fn end_object(&mut self, writer: &mut Vec<u8>)
        ensures
            final(writer)@ == old(writer)@ + old(self).emit(Event::EndObject),
            *final(self) == old(self).after(Event::EndObject),
    ;

    /// Starts an entry of an object.
    fn begin_object_key(&mut self, writer: &mut Vec<u8>, first: bool)
        ensures
            final(writer)@ == old(writer)@ + old(self).emit(Event::BeginObjectKey(first)),
            *final(self) == old(self).after(Event::BeginObjectKey(first)),
    ;

    /// Ends the key of an entry.
    fn end_object_key(&mut self, writer: &mut Vec<u8>)
        ensures
            final(writer)@ == old(writer)@ + old(self).emit(Event::EndObjectKey),
            *final(self) == old(self).after(Event::EndObjectKey),
    ;

    /// Starts the value of an entry.
    fn begin_object_value(&mut self, writer: &mut Vec<u8>)
        ensures
            final(writer)@ == old(writer)@ + old(self).emit(Event::BeginObjectValue),
            *final(self) == old(self).after(Event::BeginObjectValue),
    ;

    /// Ends the value of an entry.
    fn end_object_value(&mut self, writer: &mut Vec<u8>)
        ensures
            final(writer)@ == old(writer)@ + old(self).emit(Event::EndObjectValue),
            *final(self) == old(self).after(Event::EndObjectValue),
    ;

    /// Writes a fragment of JSON text as it is.
    fn write_raw_fragment(&mut self, writer: &mut Vec<u8>, fragment: &[u8])
        ensures
            final(writer)@ == old(writer)@ + old(self).emit(Event::RawFragment(fragment@)),
            *final(self) == old(self).after(Event::RawFragment(fragment@)),
    ;

    /// Writes a signed integer.
    fn write_i8(&mut self, writer: &mut Vec<u8>, value: i8)
        ensures
            final(writer)@ == old(writer)@ + old(self).emit(Event::Number(int_text(value as int))),
            *final(self) == old(self).after(Event::Number(int_text(value as int))),
    {
        self.write_i64(writer, value as i64)
    }

    /// Writes a signed integer.
    fn write_i16(&mut self, writer: &mut Vec<u8>, value: i16)
        ensures
            final(writer)@ == old(writer)@ + old(self).emit(Event::Number(int_text(value as int))),
            *final(self) == old(self).after(Event::Number(int_text(value as int))),
    {
        self.write_i64(writer, value as i64)
    }

    /// Writes a signed integer.
    fn write_i32(&mut self, writer: &mut Vec<u8>, value: i32)
        ensures
            final(writer)@ == old(writer)@ + old(self).emit(Event::Number(int_text(value as int))),
            *final(self) == old(self).after(Event::Number(int_text(value as int))),
    {
        self.write_i64(writer, value as i64)
    }

    /// Writes an unsigned integer.
    fn write_u8(&mut self, writer: &mut Vec<u8>, value: u8)
        ensures
            final(writer)@ == old(writer)@ + old(self).emit(Event::Number(int_text(value as int))),
            *final(self) == old(self).after(Event::Number(int_text(value as int))),
    {
        self.write_u64(writer, value as u64)
    }

    /// Writes an unsigned integer.
    fn write_u16(&mut self, writer: &mut Vec<u8>, value: u16)
        ensures
            final(writer)@ == old(writer)@ + old(self).emit(Event::Number(int_text(value as int))),
            *final(self) == old(self).after(Event::Number(int_text(value as int))),
    {
        self.write_u64(writer, value as u64)
    }

    /// Writes an unsigned integer.
    fn write_u32(&mut self, writer: &mut Vec<u8>, value: u32)
        ensures
            final(writer)@ == old(writer)@ + old(self).emit(Event::Number(int_text(value as int))),
            *final(self) == old(self).after(Event::Number(int_text(value as int))),
    {
        self.write_u64(writer, value as u64)
    }
}

impl Formatter for CompactFormatter {
    open spec fn emit(&self, e: Event) -> Seq<u8> {
        compact_text(e)
    }

    open spec fn after(&self, e: Event) -> Self {
        *self
    }

    fn write_null(&mut self, writer: &mut Vec<u8>) {
        let ghost before = writer@;
        writer.push(110u8);
        writer.push(117u8);
        writer.push(108u8);
        writer.push(108u8);
        assert(writer@ =~= before + old(self).emit(Event::Null));
    }

    fn write_bool(&mut self, writer: &mut Vec<u8>, value: bool) {
        let ghost before = writer@;
        if value {
            writer.push(116u8);
            writer.push(114u8);
            writer.push(117u8);
            writer.push(101u8);
        } else {
            writer.push(102u8);
            writer.push(97u8);
            writer.push(108u8);
            writer.push(115u8);
            writer.push(101u8);
        }
        assert(writer@ =~= before + old(self).emit(Event::Bool(value)));
    }

    fn write_i64(&mut self, writer: &mut Vec<u8>, value: i64) {
        let ghost before = writer@;
        let digits = format_integer(value as i128);
        extend(writer, digits.as_slice());
        assert(writer@ =~= before + old(self).emit(Event::Number(int_text(value as int))));
    }

    fn write_u64(&mut self, writer: &mut Vec<u8>, value: u64) {
        let ghost before = writer@;
        let digits = format_integer(value as i128);
        extend(writer, digits.as_slice());
        assert(writer@ =~= before + old(self).emit(Event::Number(int_text(value as int))));
    }

    fn write_number_str(&mut self, writer: &mut Vec<u8>, value: &[u8]) {
        let ghost before = writer@;
        extend(writer, value);
        assert(writer@ =~= before + old(self).emit(Event::Number(value@)));
    }

    fn begin_string(&mut self, writer: &mut Vec<u8>) {
        let ghost before = writer@;
        writer.push(34u8);
        assert(writer@ =~= before + old(self).emit(Event::BeginString));
    }

    fn end_string(&mut self, writer: &mut Vec<u8>) {
        let ghost before = writer@;
        writer.push(34u8);
        assert(writer@ =~= before + old(self).emit(Event::EndString));
    }

    fn write_string_fragment(&mut self, writer: &mut Vec<u8>, fragment: &[u8]) {
        let ghost before = writer@;
        extend(writer, fragment);
        assert(writer@ =~= before + old(self).emit(Event::Fragment(fragment@)));
    }

    fn write_char_escape(&mut self, writer: &mut Vec<u8>, char_escape: CharEscape) {
        let ghost before = writer@;
        write_escape(writer, char_escape);
        assert(writer@ =~= before + old(self).emit(Event::Escape(char_escape)));
    }

    fn begin_array(&mut self, writer: &mut Vec<u8>) {
        let ghost before = writer@;
        writer.push(91u8);
        assert(writer@ =~= before + old(self).emit(Event::BeginArray));
    }

    fn end_array(&mut self, writer: &mut Vec<u8>) {
        let ghost before = writer@;
        writer.push(93u8);
        assert(writer@ =~= before + old(self).emit(Event::EndArray));
    }

    fn begin_array_value(&mut self, writer: &mut Vec<u8>, first: bool) {
        let ghost before = writer@;
        if !first {
            writer.push(44u8);
        }
        assert(writer@ =~= before + old(self).emit(Event::BeginArrayValue(first)));
    }

    fn end_array_value(&mut self, writer: &mut Vec<u8>) {
        let ghost before = writer@;
        assert(writer@ =~= before + old(self).emit(Event::EndArrayValue));
    }

    fn begin_object(&mut self, writer: &mut Vec<u8>) {
        let ghost before = writer@;
        writer.push(123u8);
        assert(writer@ =~= before + old(self).emit(Event::BeginObject));
    }

    fn end_object(&mut self, writer: &mut Vec<u8>) {
        let ghost before = writer@;
        writer.push(125u8);
        assert(writer@ =~= before + old(self).emit(Event::EndObject));
    }

    fn begin_object_key(&mut self, writer: &mut Vec<u8>, first: bool) {
        let ghost before = writer@;
        if !first {
            writer.push(44u8);
        }
        assert(writer@ =~= before + old(self).emit(Event::BeginObjectKey(first)));
    }

    fn end_object_key(&mut self, writer: &mut Vec<u8>) {
        let ghost before = writer@;
        assert(writer@ =~= before + old(self).emit(Event::EndObjectKey));
    }

    fn begin_object_value(&mut self, writer: &mut Vec<u8>) {
        let ghost before = writer@;
        writer.push(58u8);
        assert(writer@ =~= before + old(self).emit(Event::BeginObjectValue));
    }

    fn end_object_value(&mut self, writer: &mut Vec<u8>) {
        let ghost before = writer@;
        assert(writer@ =~= before + old(self).emit(Event::EndObjectValue));
    }

    fn write_raw_fragment(&mut self, writer: &mut Vec<u8>, fragment: &[u8]) {
        let ghost before = writer@;
        extend(writer, fragment);
        assert(writer@ =~= before + old(self).emit(Event::RawFragment(fragment@)));
    }
}

impl<'a> Formatter for PrettyFormatter<'a> {
    closed spec fn emit(&self, e: Event) -> Seq<u8> {
        pretty_text(self.current_indent, self.has_value, self.indent@, e)
    }

    closed spec fn after(&self, e: Event) -> Self {
        PrettyFormatter {
            current_indent: pretty_indent_after(self.current_indent, e),
            has_value: pretty_has_value_after(self.has_value, e),
            indent: self.indent,
        }
    }

    fn write_null(&mut self, writer: &mut Vec<u8>) {
        let ghost before = writer@;
        writer.push(110u8);
        writer.push(117u8);
        writer.push(108u8);
        writer.push(108u8);
        assert(writer@ =~= before + old(self).emit(Event::Null));
    }

    fn write_bool(&mut self, writer: &mut Vec<u8>, value: bool) {
        let ghost before = writer@;
        if value {
            writer.push(116u8);
            writer.push(114u8);
            writer.push(117u8);
            writer.push(101u8);
        } else {
            writer.push(102u8);
            writer.push(97u8);
            writer.push(108u8);
            writer.push(115u8);
            writer.push(101u8);
        }
        assert(writer@ =~= before + old(self).emit(Event::Bool(value)));
    }

    fn write_i64(&mut self, writer: &mut Vec<u8>, value: i64) {
        let ghost before = writer@;
        let digits = format_integer(value as i128);
        extend(writer, digits.as_slice());
        assert(writer@ =~= before + old(self).emit(Event::Number(int_text(value as int))));
    }

    fn write_u64(&mut self, writer: &mut Vec<u8>, value: u64) {
        let ghost before = writer@;
        let digits = format_integer(value as i128);
        extend(writer, digits.as_slice());
        assert(writer@ =~= before + old(self).emit(Event::Number(int_text(value as int))));
    }

    fn write_number_str(&mut self, writer: &mut Vec<u8>, value: &[u8]) {
        let ghost before = writer@;
        extend(writer, value);
        assert(writer@ =~= before + old(self).emit(Event::Number(value@)));
    }

    fn begin_string(&mut self, writer: &mut Vec<u8>) {
        let ghost before = writer@;
        writer.push(34u8);
        assert(writer@ =~= before + old(self).emit(Event::BeginString));
    }

    fn end_string(&mut self, writer: &mut Vec<u8>) {
        let ghost before = writer@;
        writer.push(34u8);
        assert(writer@ =~= before + old(self).emit(Event::EndString));
    }

    fn write_string_fragment(&mut self, writer: &mut Vec<u8>, fragment: &[u8]) {
        let ghost before = writer@;
        extend(writer, fragment);
        assert(writer@ =~= before + old(self).emit(Event::Fragment(fragment@)));
    }

    fn write_char_escape(&mut self, writer: &mut Vec<u8>, char_escape: CharEscape) {
        let ghost before = writer@;
        write_escape(writer, char_escape);
        assert(writer@ =~= before + old(self).emit(Event::Escape(char_escape)));
    }

    fn begin_array(&mut self, writer: &mut Vec<u8>) {
        let ghost before = writer@;
        self.current_indent = step_in(self.current_indent);
        self.has_value = false;
        writer.push(91u8);
        assert(writer@ =~= before + old(self).emit(Event::BeginArray));
    }

    fn end_array(&mut self, writer: &mut Vec<u8>) {
        let ghost before = writer@;
        self.current_indent = step_out(self.current_indent);
        if self.has_value {
            writer.push(10u8);
            indent(writer, self.current_indent, self.indent);
        }
        writer.push(93u8);
        assert(writer@ =~= before + old(self).emit(Event::EndArray));
    }

    fn begin_array_value(&mut self, writer: &mut Vec<u8>, first: bool) {
        let ghost before = writer@;
        if !first {
            writer.push(44u8);
        }
        writer.push(10u8);
        indent(writer, self.current_indent, self.indent);
        assert(writer@ =~= before + old(self).emit(Event::BeginArrayValue(first)));
    }

    fn end_array_value(&mut self, writer: &mut Vec<u8>) {
        let ghost before = writer@;
        self.has_value = true;
        assert(writer@ =~= before + old(self).emit(Event::EndArrayValue));
    }

    fn begin_object(&mut self, writer: &mut Vec<u8>) {
        let ghost before = writer@;
        self.current_indent = step_in(self.current_indent);
        self.has_value = false;
        writer.push(123u8);
        assert(writer@ =~= before + old(self).emit(Event::BeginObject));
    }

    fn end_object(&mut self, writer: &mut Vec<u8>) {
        let ghost before = writer@;
        self.current_indent = step_out(self.current_indent);
        if self.has_value {
            writer.push(10u8);
            indent(writer, self.current_indent, self.indent);
        }
        writer.push(125u8);
        assert(writer@ =~= before + old(self).emit(Event::EndObject));
    }

    fn begin_object_key(&mut self, writer: &mut Vec<u8>, first: bool) {
        let ghost before = writer@;
        if !first {
            writer.push(44u8);
        }
        writer.push(10u8);
        indent(writer, self.current_indent, self.indent);
        assert(writer@ =~= before + old(self).emit(Event::BeginObjectKey(first)));
    }

    fn end_object_key(&mut self, writer: &mut Vec<u8>) {
        let ghost before = writer@;
        assert(writer@ =~= before + old(self).emit(Event::EndObjectKey));
    }

    fn begin_object_value(&mut self, writer: &mut Vec<u8>) {
        let ghost before = writer@;
        writer.push(58u8);
        writer.push(32u8);
        assert(writer@ =~= before + old(self).emit(Event::BeginObjectValue));
    }

    fn end_object_value(&mut self, writer: &mut Vec<u8>) {
        let ghost before = writer@;
        self.has_value = true;
        assert(writer@ =~= before + old(self).emit(Event::EndObjectValue));
    }

    fn write_raw_fragment(&mut self, writer: &mut Vec<u8>, fragment: &[u8]) {
        let ghost before = writer@;
        extend(writer, fragment);
        assert(writer@ =~= before + old(self).emit(Event::RawFragment(fragment@)));
    }
}


/// The bytes that formatter `f` writes for the events `evs`.
pub open spec fn run_text<F: Formatter>(f: F, evs: Seq<Event>) -> Seq<u8>
    decreases evs.len(),
{
    if evs.len() == 0 {
        Seq::empty()
    } else {
        f.emit(evs[0]) + run_text(f.after(evs[0]), evs.drop_first())
    }
}

/// The state of formatter `f` after the events `evs`.
pub open spec fn run_state<F: Formatter>(f: F, evs: Seq<Event>) -> F
    decreases evs.len(),
{
    if evs.len() == 0 {
        f
    } else {
        run_state(f.after(evs[0]), evs.drop_first())
    }
}

pub proof fn lemma_run_concat<F: Formatter>(f: F, a: Seq<Event>, b: Seq<Event>)
    ensures
        run_text(f, a + b) == run_text(f, a) + run_text(run_state(f, a), b),
        run_state(f, a + b) == run_state(run_state(f, a), b),
    decreases a.len(),
{
    if a.len() == 0 {
        assert(a + b =~= b);
        assert(run_text(f, a) + run_text(run_state(f, a), b) =~= run_text(f, b));
    } else {
        assert((a + b)[0] == a[0]);
        assert((a + b).drop_first() =~= a.drop_first() + b);
        lemma_run_concat(f.after(a[0]), a.drop_first(), b);
        assert(run_text(f, a + b) =~= run_text(f, a) + run_text(run_state(f, a), b));
    }
}

pub proof fn lemma_run_step<F: Formatter>(f: F, e: Event, rest: Seq<Event>)
    ensures
        run_text(f, seq![e] + rest) == f.emit(e) + run_text(f.after(e), rest),
        run_state(f, seq![e] + rest) == run_state(f.after(e), rest),
{
    assert((seq![e] + rest)[0] == e);
    assert((seq![e] + rest).drop_first() =~= rest);
}

/// Emits values as JSON text into a byte buffer, through a formatter.
pub struct Serializer<F> {
    writer: Vec<u8>,
    formatter: F,
}

/// `after` is `before` with the events `evs` written.
pub open spec fn wrote<F: Formatter>(before: Serializer<F>, after: Serializer<F>, evs: Seq<Event>) -> bool {
    &&& after.spec_written() == before.spec_written() + run_text(before.spec_formatter(), evs)
    &&& after.spec_formatter() == run_state(before.spec_formatter(), evs)
}

impl Serializer<CompactFormatter> {
    /// A serializer that writes compact JSON after the bytes of `writer`.
    pub fn new(writer: Vec<u8>) -> (r: Self)
        ensures
            r.spec_written() == writer@,
    {
        Serializer::with_formatter(writer, CompactFormatter)
    }
}

impl<'a> Serializer<PrettyFormatter<'a>> {
    /// A serializer that writes indented JSON after the bytes of `writer`.
    pub fn pretty(writer: Vec<u8>) -> (r: Self)
        ensures
            r.spec_written() == writer@,
            r.spec_formatter().spec_level() == 0,
            !r.spec_formatter().spec_has_value(),
            r.spec_formatter().spec_indent() == seq![32u8, 32u8],
    {
        Serializer::with_formatter(writer, PrettyFormatter::new())
    }
}

impl<F: Formatter> Serializer<F> {
    pub closed spec fn spec_written(&self) -> Seq<u8> {
        self.writer@
    }

    pub closed spec fn spec_formatter(&self) -> F {
        self.formatter
    }

    /// A serializer that writes after the bytes of `writer` through `formatter`.
    pub fn with_formatter(writer: Vec<u8>, formatter: F) -> (r: Self)
        ensures
            r.spec_written() == writer@,
            r.spec_formatter() == formatter,
    {
        Serializer { writer, formatter }
    }

    /// The bytes written.
    pub fn into_inner(self) -> (r: Vec<u8>)
        ensures
            r@ == self.spec_written(),
    {
        self.writer
    }

    /// Writes the contents of a string, a plain run at a time, with the escapes
    /// that its bytes need.
    fn format_escaped_str_contents(&mut self, bytes: &[u8])
        ensures
            wrote(*old(self), *final(self), contents_events(bytes@, 0, 0)),
    {
        let ghost b = bytes@;
        let ghost goal_text = self.writer@ + run_text(self.formatter, contents_events(b, 0, 0));
        let ghost goal_state = run_state(self.formatter, contents_events(b, 0, 0));
        let mut start: usize = 0;
        let mut i: usize = 0;
        while i < bytes.len()
            invariant
                b == bytes@,
                start <= i <= b.len(),
                goal_text == self.writer@ + run_text(self.formatter, contents_events(b, start as int, i as int)),
                goal_state == run_state(self.formatter, contents_events(b, start as int, i as int)),
                goal_text == old(self).writer@ + run_text(old(self).formatter, contents_events(b, 0, 0)),
                goal_state == run_state(old(self).formatter, contents_events(b, 0, 0)),
            decreases b.len() - i,
        {
            let byte = bytes[i];
            let escape = escape_class_of(byte);
            if escape != 0 {
                let ghost rest = contents_events(b, i + 1, i + 1);
                let ce = CharEscape::from_escape_table(escape, byte);
                if start < i {
                    let ghost fr = b.subrange(start as int, i as int);
                    proof {
                        lemma_run_step(self.formatter, Event::Fragment(fr), seq![Event::Escape(ce)] + rest);
                        assert(seq![Event::Fragment(fr)] + seq![Event::Escape(ce)] + rest =~= seq![Event::Fragment(fr)] + (seq![Event::Escape(ce)] + rest));
                    }
                    self.formatter.write_string_fragment(&mut self.writer, slice_subrange(bytes, start, i));
                } else {
                    assert(Seq::<Event>::empty() + seq![Event::Escape(ce)] + rest =~= seq![Event::Escape(ce)] + rest);
                }
                proof {
                    lemma_run_step(self.formatter, Event::Escape(ce), rest);
                }
                self.formatter.write_char_escape(&mut self.writer, ce);
                start = i + 1;
            }
            i = i + 1;
        }
        if start < bytes.len() {
            let ghost fr = b.subrange(start as int, b.len() as int);
            proof {
                lemma_run_step(self.formatter, Event::Fragment(fr), Seq::empty());
                assert(seq![Event::Fragment(fr)] + Seq::<Event>::empty() =~= seq![Event::Fragment(fr)]);
            }
            self.formatter.write_string_fragment(&mut self.writer, slice_subrange(bytes, start, bytes.len()));
        }
    }

    /// Writes a string with bytes `bytes`, quoted and escaped.
    fn format_escaped_str(&mut self, bytes: &[u8])
        ensures
            wrote(*old(self), *final(self), string_events(bytes@)),
    {
        let ghost s0 = *self;
        self.formatter.begin_string(&mut self.writer);
        let ghost s1 = *self;
        self.format_escaped_str_contents(bytes);
        let ghost s2 = *self;
        self.formatter.end_string(&mut self.writer);
        proof {
            let a = seq![Event::BeginString];
            let b = contents_events(bytes@, 0, 0);
            let c = seq![Event::EndString];
            lemma_run_step(s0.formatter, Event::BeginString, Seq::empty());
            assert(a + Seq::<Event>::empty() =~= a);
            lemma_run_step(s2.formatter, Event::EndString, Seq::empty());
            assert(c + Seq::<Event>::empty() =~= c);
            lemma_run_concat(s0.formatter, a, b);
            lemma_run_concat(s0.formatter, a + b, c);
            assert(self.writer@ =~= s0.writer@ + run_text(s0.formatter, a + b + c));
        }
    }

    /// Writes `null`.
    pub fn serialize_unit(&mut self) -> (r: Result<()>)
        ensures
            r is Ok,
            wrote(*old(self), *final(self), seq![Event::Null]),
    {
        proof {
            lemma_run_one(self.formatter, Event::Null);
        }
        self.formatter.write_null(&mut self.writer);
        Ok(())
    }

    /// Writes `null` for a unit struct.
    pub fn serialize_unit_struct(&mut self, _name: &str) -> (r: Result<()>)
        ensures
            r is Ok,
            wrote(*old(self), *final(self), seq![Event::Null]),
    {
        self.serialize_unit()
    }

    /// Writes `null` for an absent optional value.
    pub fn serialize_none(&mut self) -> (r: Result<()>)
        ensures
            r is Ok,
            wrote(*old(self), *final(self), seq![Event::Null]),
    {
        self.serialize_unit()
    }

    /// Writes `true` or `false`.
    pub fn serialize_bool(&mut self, value: bool) -> (r: Result<()>)
        ensures
            r is Ok,
            wrote(*old(self), *final(self), seq![Event::Bool(value)]),
    {
        proof {
            lemma_run_one(self.formatter, Event::Bool(value));
        }
        self.formatter.write_bool(&mut self.writer, value);
        Ok(())
    }

    /// Writes an integer in decimal.
    pub fn serialize_i8(&mut self, value: i8) -> (r: Result<()>)
        ensures
            r is Ok,
            wrote(*old(self), *final(self), seq![Event::Number(int_text(value as int))]),
    {
        proof {
            lemma_run_one(self.formatter, Event::Number(int_text(value as int)));
        }
        self.formatter.write_i8(&mut self.writer, value);
        Ok(())
    }

    /// Writes an integer in decimal.
    pub fn serialize_i16(&mut self, value: i16) -> (r: Result<()>)
        ensures
            r is Ok,
            wrote(*old(self), *final(self), seq![Event::Number(int_text(value as int))]),
    {
        proof {
            lemma_run_one(self.formatter, Event::Number(int_text(value as int)));
        }
        self.formatter.write_i16(&mut self.writer, value);
        Ok(())
    }

    /// Writes an integer in decimal.
    pub fn serialize_i32(&mut self, value: i32) -> (r: Result<()>)
        ensures
            r is Ok,
            wrote(*old(self), *final(self), seq![Event::Number(int_text(value as int))]),
    {
        proof {
            lemma_run_one(self.formatter, Event::Number(int_text(value as int)));
        }
        self.formatter.write_i32(&mut self.writer, value);
        Ok(())
    }

    /// Writes an integer in decimal.
    pub fn serialize_i64(&mut self, value: i64) -> (r: Result<()>)
        ensures
            r is Ok,
            wrote(*old(self), *final(self), seq![Event::Number(int_text(value as int))]),
    {
        proof {
            lemma_run_one(self.formatter, Event::Number(int_text(value as int)));
        }
        self.formatter.write_i64(&mut self.writer, value);
        Ok(())
    }

    /// Writes an integer in decimal.
    pub fn serialize_u8(&mut self, value: u8) -> (r: Result<()>)
        ensures
            r is Ok,
            wrote(*old(self), *final(self), seq![Event::Number(int_text(value as int))]),
    {
        proof {
            lemma_run_one(self.formatter, Event::Number(int_text(value as int)));
        }
        self.formatter.write_u8(&mut self.writer, value);
        Ok(())
    }

    /// Writes an integer in decimal.
    pub fn serialize_u16(&mut self, value: u16) -> (r: Result<()>)
        ensures
            r is Ok,
            wrote(*old(self), *final(self), seq![Event::Number(int_text(value as int))]),
    {
        proof {
            lemma_run_one(self.formatter, Event::Number(int_text(value as int)));
        }
        self.formatter.write_u16(&mut self.writer, value);
        Ok(())
    }

    /// Writes an integer in decimal.
    pub fn serialize_u32(&mut self, value: u32) -> (r: Result<()>)
        ensures
            r is Ok,
            wrote(*old(self), *final(self), seq![Event::Number(int_text(value as int))]),
    {
        proof {
            lemma_run_one(self.formatter, Event::Number(int_text(value as int)));
        }
        self.formatter.write_u32(&mut self.writer, value);
        Ok(())
    }

    /// Writes an integer in decimal.
    pub fn serialize_u64(&mut self, value: u64) -> (r: Result<()>)
        ensures
            r is Ok,
            wrote(*old(self), *final(self), seq![Event::Number(int_text(value as int))]),
    {
        proof {
            lemma_run_one(self.formatter, Event::Number(int_text(value as int)));
        }
        self.formatter.write_u64(&mut self.writer, value);
        Ok(())
    }

    /// Writes a number.
    pub fn serialize_number(&mut self, value: &Number) -> (r: Result<()>)
        ensures
            r is Ok,
            wrote(*old(self), *final(self), seq![Event::Number(number_text(*value))]),
    {
        match value {
            Number::PosInt(u) => self.serialize_u64(*u),
            Number::NegInt(i) => self.serialize_i64(*i),
            Number::Float(t) => {
                proof {
                    lemma_run_one(self.formatter, Event::Number(number_text(*value)));
                }
                self.formatter.write_number_str(&mut self.writer, t.as_str().as_bytes());
                Ok(())
            },
        }
    }

    /// Writes a string, quoted and escaped.
    pub fn serialize_str(&mut self, value: &str) -> (r: Result<()>)
        ensures
            r is Ok,
            wrote(*old(self), *final(self), string_events(key_bytes(value@))),
    {
        self.format_escaped_str(value.as_bytes());
        Ok(())
    }

    /// Writes a unit variant of an enum as its name.
    pub fn serialize_unit_variant(&mut self, _name: &str, _variant_index: u32, variant: &str) -> (r: Result<()>)
        ensures
            r is Ok,
            wrote(*old(self), *final(self), string_events(key_bytes(variant@))),
    {
        self.serialize_str(variant)
    }

    /// Writes a byte string as an array of numbers.
    pub fn serialize_bytes(&mut self, value: &[u8]) -> (r: Result<()>)
        ensures
            r is Ok,
            wrote(*old(self), *final(self), bytes_events(value@)),
    {
        let ghost b = value@;
        let ghost f0 = self.formatter;
        let ghost w0 = self.writer@;
        if value.len() == 0 {
            proof {
                lemma_run_step(f0, Event::BeginArray, seq![Event::EndArray]);
                lemma_run_one(f0.after(Event::BeginArray), Event::EndArray);
                assert(seq![Event::BeginArray] + seq![Event::EndArray] =~= seq![Event::BeginArray, Event::EndArray]);
            }
            self.formatter.begin_array(&mut self.writer);
            self.formatter.end_array(&mut self.writer);
            assert(self.writer@ =~= w0 + run_text(f0, seq![Event::BeginArray, Event::EndArray]));
            return Ok(());
        }
        proof {
            lemma_run_step(f0, Event::BeginArray, byte_items_events(b, true) + seq![Event::EndArray]);
            assert(seq![Event::BeginArray] + (byte_items_events(b, true) + seq![Event::EndArray]) =~= bytes_events(b));
            assert(b.subrange(0, b.len() as int) =~= b);
        }
        self.formatter.begin_array(&mut self.writer);
        let mut i: usize = 0;
        while i < value.len()
            invariant
                b == value@,
                b.len() > 0,
                i <= b.len(),
                w0 + run_text(f0, bytes_events(b)) == self.writer@ + run_text(self.formatter, byte_items_events(b.subrange(i as int, b.len() as int), i == 0) + seq![Event::EndArray]),
                run_state(f0, bytes_events(b)) == run_state(self.formatter, byte_items_events(b.subrange(i as int, b.len() as int), i == 0) + seq![Event::EndArray]),
                w0 == old(self).writer@,
                f0 == old(self).formatter,
            decreases b.len() - i,
        {
            let ghost sub = b.subrange(i as int, b.len() as int);
            let ghost rest = byte_items_events(b.subrange(i + 1, b.len() as int), false) + seq![Event::EndArray];
            let ghost e = Event::Number(int_text(b[i as int] as int));
            proof {
                assert(sub.drop_first() =~= b.subrange(i + 1, b.len() as int));
                assert(byte_items_events(sub, i == 0) + seq![Event::EndArray] =~= seq![Event::BeginArrayValue(i == 0)] + (seq![e] + (seq![Event::EndArrayValue] + rest)));
                lemma_run_step(self.formatter, Event::BeginArrayValue(i == 0), seq![e] + (seq![Event::EndArrayValue] + rest));
            }
            self.formatter.begin_array_value(&mut self.writer, i == 0);
            proof {
                lemma_run_step(self.formatter, e, seq![Event::EndArrayValue] + rest);
            }
            self.formatter.write_u8(&mut self.writer, value[i]);
            proof {
                lemma_run_step(self.formatter, Event::EndArrayValue, rest);
            }
            self.formatter.end_array_value(&mut self.writer);
            i = i + 1;
            proof {
                assert(self.writer@ + run_text(self.formatter, rest) =~= w0 + run_text(f0, bytes_events(b)));
            }
        }
        proof {
            assert(b.subrange(i as int, b.len() as int) =~= Seq::<u8>::empty());
            lemma_run_one(self.formatter, Event::EndArray);
            assert(Seq::<Event>::empty() + seq![Event::EndArray] =~= seq![Event::EndArray]);
        }
        self.formatter.end_array(&mut self.writer);
        assert(self.writer@ =~= w0 + run_text(f0, bytes_events(b)));
        Ok(())
    }

    /// Writes a character as a one-character string.
    pub fn serialize_char(&mut self, value: char) -> (r: Result<()>)
        ensures
            r is Ok,
            wrote(*old(self), *final(self), string_events(unit_utf8(value as u32))),
    {
        let mut buf: Vec<u8> = Vec::new();
        push_utf8(&mut buf, value as u32);
        assert(buf@ =~= unit_utf8(value as u32));
        self.format_escaped_str(buf.as_slice());
        Ok(())
    }

    /// Writes `{"variant": value}`.
    pub fn serialize_newtype_variant(
        &mut self,
        _name: &str,
        _variant_index: u32,
        variant: &str,
        value: &Value,
    ) -> (r: Result<()>)
        ensures
            r is Ok,
            wrote(*old(self), *final(self), variant_events(key_bytes(variant@), value_events(*value))),
    {
        let ghost f0 = self.formatter;
        let ghost w0 = self.writer@;
        let ghost ks = string_events(key_bytes(variant@));
        let ghost vs = value_events(*value);
        let ghost e1 = seq![Event::BeginObject, Event::BeginObjectKey(true)];
        let ghost e2 = seq![Event::EndObjectKey, Event::BeginObjectValue];
        let ghost e3 = seq![Event::EndObjectValue, Event::EndObject];
        proof {
            assert(variant_events(key_bytes(variant@), vs) =~= e1 + ks + e2 + vs + e3);
        }
        let ghost s0 = *self;
        self.formatter.begin_object(&mut self.writer);
        self.formatter.begin_object_key(&mut self.writer, true);
        let ghost s1 = *self;
        proof {
            lemma_run_step(s0.formatter, Event::BeginObject, seq![Event::BeginObjectKey(true)]);
            lemma_run_one(s0.formatter.after(Event::BeginObject), Event::BeginObjectKey(true));
            assert(seq![Event::BeginObject] + seq![Event::BeginObjectKey(true)] =~= e1);
            assert(s1.writer@ =~= s0.writer@ + run_text(s0.formatter, e1));
        }
        let _ = self.serialize_str(variant);
        let ghost s2 = *self;
        self.formatter.end_object_key(&mut self.writer);
        self.formatter.begin_object_value(&mut self.writer);
        let ghost s3 = *self;
        proof {
            lemma_run_step(s2.formatter, Event::EndObjectKey, seq![Event::BeginObjectValue]);
            lemma_run_one(s2.formatter.after(Event::EndObjectKey), Event::BeginObjectValue);
            assert(seq![Event::EndObjectKey] + seq![Event::BeginObjectValue] =~= e2);
            assert(s3.writer@ =~= s2.writer@ + run_text(s2.formatter, e2));
        }
        let _ = self.serialize_value(value);
        let ghost s4 = *self;
        self.formatter.end_object_value(&mut self.writer);
        self.formatter.end_object(&mut self.writer);
        proof {
            lemma_run_step(s4.formatter, Event::EndObjectValue, seq![Event::EndObject]);
            lemma_run_one(s4.formatter.after(Event::EndObjectValue), Event::EndObject);
            assert(seq![Event::EndObjectValue] + seq![Event::EndObject] =~= e3);
            assert(self.writer@ =~= s4.writer@ + run_text(s4.formatter, e3));
            lemma_run_concat(s0.formatter, e1, ks);
            lemma_run_concat(s0.formatter, e1 + ks, e2);
            lemma_run_concat(s0.formatter, e1 + ks + e2, vs);
            lemma_run_concat(s0.formatter, e1 + ks + e2 + vs, e3);
            assert(self.writer@ =~= w0 + run_text(f0, e1 + ks + e2 + vs + e3));
        }
        Ok(())
    }

    /// Writes a map key given as a string.
    pub fn serialize_key_str(&mut self, value: &str) -> (r: Result<()>)
        ensures
            r is Ok,
            wrote(*old(self), *final(self), string_events(key_bytes(value@))),
    {
        self.serialize_str(value)
    }

    /// Writes a map key given as a signed integer: its digits, quoted.
    pub fn serialize_key_i64(&mut self, value: i64) -> (r: Result<()>)
        ensures
            r is Ok,
            wrote(*old(self), *final(self), quoted_number_events(int_text(value as int))),
    {
        let ghost s0 = *self;
        self.formatter.begin_string(&mut self.writer);
        self.formatter.write_i64(&mut self.writer, value);
        self.formatter.end_string(&mut self.writer);
        proof {
            lemma_quoted(s0.formatter, int_text(value as int));
            assert(self.writer@ =~= s0.writer@ + run_text(s0.formatter, quoted_number_events(int_text(value as int))));
        }
        Ok(())
    }

    /// Writes a map key given as an unsigned integer: its digits, quoted.
    pub fn serialize_key_u64(&mut self, value: u64) -> (r: Result<()>)
        ensures
            r is Ok,
            wrote(*old(self), *final(self), quoted_number_events(int_text(value as int))),
    {
        let ghost s0 = *self;
        self.formatter.begin_string(&mut self.writer);
        self.formatter.write_u64(&mut self.writer, value);
        self.formatter.end_string(&mut self.writer);
        proof {
            lemma_quoted(s0.formatter, int_text(value as int));
            assert(self.writer@ =~= s0.writer@ + run_text(s0.formatter, quoted_number_events(int_text(value as int))));
        }
        Ok(())
    }

    /// A map key that is a boolean is refused.
    pub fn serialize_key_bool(&mut self, _value: bool) -> (r: Result<()>)
        ensures
            r matches Err(e) && refused_key(e),
            *final(self) == *old(self),
    {
        Err(key_must_be_a_string())
    }

    /// A map key that is null is refused.
    pub fn serialize_key_unit(&mut self) -> (r: Result<()>)
        ensures
            r matches Err(e) && refused_key(e),
            *final(self) == *old(self),
    {
        Err(key_must_be_a_string())
    }

    /// A map key that is a byte string is refused.
    pub fn serialize_key_bytes(&mut self, _value: &[u8]) -> (r: Result<()>)
        ensures
            r matches Err(e) && refused_key(e),
            *final(self) == *old(self),
    {
        Err(key_must_be_a_string())
    }

    /// A map key that is an array, an object or a number that is not an
    /// integer is refused.
    pub fn serialize_key_value(&mut self, value: &Value) -> (r: Result<()>)
        ensures
            match *value {
                Value::String(s) => r is Ok && wrote(*old(self), *final(self), string_events(key_bytes(s@))),
                Value::Number(Number::PosInt(u)) => r is Ok && wrote(*old(self), *final(self), quoted_number_events(int_text(u as int))),
                Value::Number(Number::NegInt(i)) => r is Ok && wrote(*old(self), *final(self), quoted_number_events(int_text(i as int))),
                _ => (r matches Err(e) && refused_key(e)) && *final(self) == *old(self),
            },
    {
        match value {
            Value::String(s) => self.serialize_key_str(s.as_str()),
            Value::Number(Number::PosInt(u)) => self.serialize_key_u64(*u),
            Value::Number(Number::NegInt(i)) => self.serialize_key_i64(*i),
            _ => Err(key_must_be_a_string()),
        }
    }

    /// Writes one event.
    fn emit_one(&mut self, e: FmtCall) -> (r: ())
        ensures
            wrote(*old(self), *final(self), seq![call_event(e)]),
    {
        proof {
            lemma_run_one(self.formatter, call_event(e));
        }
        match e {
            FmtCall::BeginArray => self.formatter.begin_array(&mut self.writer),
            FmtCall::EndArray => self.formatter.end_array(&mut self.writer),
            FmtCall::BeginArrayValue(first) => self.formatter.begin_array_value(&mut self.writer, first),
            FmtCall::EndArrayValue => self.formatter.end_array_value(&mut self.writer),
            FmtCall::BeginObject => self.formatter.begin_object(&mut self.writer),
            FmtCall::EndObject => self.formatter.end_object(&mut self.writer),
            FmtCall::BeginObjectKey(first) => self.formatter.begin_object_key(&mut self.writer, first),
            FmtCall::EndObjectKey => self.formatter.end_object_key(&mut self.writer),
            FmtCall::BeginObjectValue => self.formatter.begin_object_value(&mut self.writer),
            FmtCall::EndObjectValue => self.formatter.end_object_value(&mut self.writer),
        }
    }

    /// Opens an array of `len` items (when known); an array known to be empty
    /// is closed at once.
    pub fn serialize_seq(&mut self, len: Option<usize>) -> (r: Result<Compound>)
        ensures
            r matches Ok(c) && (if len == Some(0usize) {
                c.state == State::Empty && wrote(*old(self), *final(self), seq![Event::BeginArray, Event::EndArray])
            } else {
                c.state == State::First && wrote(*old(self), *final(self), seq![Event::BeginArray])
            }),
    {
        let ghost s0 = *self;
        self.emit_one(FmtCall::BeginArray);
        if len == Some(0usize) {
            let ghost s1 = *self;
            self.emit_one(FmtCall::EndArray);
            proof {
                lemma_wrote_concat(s0, s1, *self, seq![Event::BeginArray], seq![Event::EndArray]);
                assert(seq![Event::BeginArray] + seq![Event::EndArray] =~= seq![Event::BeginArray, Event::EndArray]);
            }
            Ok(Compound { state: State::Empty })
        } else {
            Ok(Compound { state: State::First })
        }
    }

    /// Opens a tuple: an array of `len` items.
    pub fn serialize_tuple(&mut self, len: usize) -> (r: Result<Compound>)
        ensures
            r matches Ok(c) && (if len == 0 {
                c.state == State::Empty && wrote(*old(self), *final(self), seq![Event::BeginArray, Event::EndArray])
            } else {
                c.state == State::First && wrote(*old(self), *final(self), seq![Event::BeginArray])
            }),
    {
        self.serialize_seq(Some(len))
    }

    /// Writes an item of an array.
    pub fn serialize_element(&mut self, c: &mut Compound, value: &Value) -> (r: Result<()>)
        ensures
            r is Ok,
            final(c).state == State::Rest,
            wrote(*old(self), *final(self), seq![Event::BeginArrayValue(old(c).state == State::First)] + value_events(*value) + seq![Event::EndArrayValue]),
    {
        let ghost s0 = *self;
        let first = c.state == State::First;
        self.emit_one(FmtCall::BeginArrayValue(first));
        c.state = State::Rest;
        let ghost s1 = *self;
        let _ = self.serialize_value(value);
        let ghost s2 = *self;
        self.emit_one(FmtCall::EndArrayValue);
        proof {
            lemma_wrote_concat(s0, s1, s2, seq![Event::BeginArrayValue(first)], value_events(*value));
            lemma_wrote_concat(s0, s2, *self, seq![Event::BeginArrayValue(first)] + value_events(*value), seq![Event::EndArrayValue]);
        }
        Ok(())
    }

    /// Closes an array, unless it was closed when opened.
    pub fn end_seq(&mut self, c: Compound) -> (r: Result<()>)
        ensures
            r is Ok,
            c.state == State::Empty ==> wrote(*old(self), *final(self), Seq::empty()),
            c.state != State::Empty ==> wrote(*old(self), *final(self), seq![Event::EndArray]),
    {
        if c.state == State::Empty {
            assert(self.writer@ =~= self.writer@ + run_text(self.formatter, Seq::empty()));
            Ok(())
        } else {
            self.emit_one(FmtCall::EndArray);
            Ok(())
        }
    }

    /// Opens an object of `len` entries (when known); an object known to be
    /// empty is closed at once.
    pub fn serialize_map(&mut self, len: Option<usize>) -> (r: Result<Compound>)
        ensures
            r matches Ok(c) && (if len == Some(0usize) {
                c.state == State::Empty && wrote(*old(self), *final(self), seq![Event::BeginObject, Event::EndObject])
            } else {
                c.state == State::First && wrote(*old(self), *final(self), seq![Event::BeginObject])
            }),
    {
        let ghost s0 = *self;
        self.emit_one(FmtCall::BeginObject);
        if len == Some(0usize) {
            let ghost s1 = *self;
            self.emit_one(FmtCall::EndObject);
            proof {
                lemma_wrote_concat(s0, s1, *self, seq![Event::BeginObject], seq![Event::EndObject]);
                assert(seq![Event::BeginObject] + seq![Event::EndObject] =~= seq![Event::BeginObject, Event::EndObject]);
            }
            Ok(Compound { state: State::Empty })
        } else {
            Ok(Compound { state: State::First })
        }
    }

    /// Opens a struct: an object of `len` fields.
    pub fn serialize_struct(&mut self, _name: &str, len: usize) -> (r: Result<Compound>)
        ensures
            r matches Ok(c) && (if len == 0 {
                c.state == State::Empty && wrote(*old(self), *final(self), seq![Event::BeginObject, Event::EndObject])
            } else {
                c.state == State::First && wrote(*old(self), *final(self), seq![Event::BeginObject])
            }),
    {
        self.serialize_map(Some(len))
    }

    /// Writes the key of an entry: a string, or an integer written inside
    /// quotes; any other key is refused.
    pub fn serialize_key(&mut self, c: &mut Compound, key: &Value) -> (r: Result<()>)
        ensures
            final(c).state == State::Rest,
            match *key {
                Value::String(s) => r is Ok && wrote(*old(self), *final(self), seq![Event::BeginObjectKey(old(c).state == State::First)] + string_events(key_bytes(s@)) + seq![Event::EndObjectKey]),
                Value::Number(Number::PosInt(u)) => r is Ok && wrote(*old(self), *final(self), seq![Event::BeginObjectKey(old(c).state == State::First)] + quoted_number_events(int_text(u as int)) + seq![Event::EndObjectKey]),
                Value::Number(Number::NegInt(i)) => r is Ok && wrote(*old(self), *final(self), seq![Event::BeginObjectKey(old(c).state == State::First)] + quoted_number_events(int_text(i as int)) + seq![Event::EndObjectKey]),
                _ => r matches Err(e) && refused_key(e),
            },
    {
        let ghost s0 = *self;
        let first = c.state == State::First;
        self.emit_one(FmtCall::BeginObjectKey(first));
        c.state = State::Rest;
        let ghost s1 = *self;
        match self.serialize_key_value(key) {
            Ok(()) => {},
            Err(e) => return Err(e),
        }
        let ghost s2 = *self;
        self.emit_one(FmtCall::EndObjectKey);
        proof {
            let ks = key_events(*key);
            lemma_wrote_concat(s0, s1, s2, seq![Event::BeginObjectKey(first)], ks);
            lemma_wrote_concat(s0, s2, *self, seq![Event::BeginObjectKey(first)] + ks, seq![Event::EndObjectKey]);
        }
        Ok(())
    }

    /// Writes the value of an entry.
    pub fn serialize_map_value(&mut self, value: &Value) -> (r: Result<()>)
        ensures
            r is Ok,
            wrote(*old(self), *final(self), seq![Event::BeginObjectValue] + value_events(*value) + seq![Event::EndObjectValue]),
    {
        let ghost s0 = *self;
        self.emit_one(FmtCall::BeginObjectValue);
        let ghost s1 = *self;
        let _ = self.serialize_value(value);
        let ghost s2 = *self;
        self.emit_one(FmtCall::EndObjectValue);
        proof {
            lemma_wrote_concat(s0, s1, s2, seq![Event::BeginObjectValue], value_events(*value));
            lemma_wrote_concat(s0, s2, *self, seq![Event::BeginObjectValue] + value_events(*value), seq![Event::EndObjectValue]);
        }
        Ok(())
    }

    /// Closes an object, unless it was closed when opened.
    pub fn end_map(&mut self, c: Compound) -> (r: Result<()>)
        ensures
            r is Ok,
            c.state == State::Empty ==> wrote(*old(self), *final(self), Seq::empty()),
            c.state != State::Empty ==> wrote(*old(self), *final(self), seq![Event::EndObject]),
    {
        if c.state == State::Empty {
            assert(self.writer@ =~= self.writer@ + run_text(self.formatter, Seq::empty()));
            Ok(())
        } else {
            self.emit_one(FmtCall::EndObject);
            Ok(())
        }
    }

    /// Opens `{"variant": ` around the value of an enum variant.
    fn begin_variant(&mut self, variant: &str)
        ensures
            wrote(*old(self), *final(self), variant_open_events(key_bytes(variant@))),
    {
        let ghost s0 = *self;
        self.emit_one(FmtCall::BeginObject);
        let ghost s1 = *self;
        self.emit_one(FmtCall::BeginObjectKey(true));
        let ghost s2 = *self;
        let _ = self.serialize_str(variant);
        let ghost s3 = *self;
        self.emit_one(FmtCall::EndObjectKey);
        let ghost s4 = *self;
        self.emit_one(FmtCall::BeginObjectValue);
        proof {
            let ks = string_events(key_bytes(variant@));
            lemma_wrote_concat(s0, s1, s2, seq![Event::BeginObject], seq![Event::BeginObjectKey(true)]);
            let a = seq![Event::BeginObject] + seq![Event::BeginObjectKey(true)];
            lemma_wrote_concat(s0, s2, s3, a, ks);
            lemma_wrote_concat(s0, s3, s4, a + ks, seq![Event::EndObjectKey]);
            lemma_wrote_concat(s0, s4, *self, a + ks + seq![Event::EndObjectKey], seq![Event::BeginObjectValue]);
            assert(a + ks + seq![Event::EndObjectKey] + seq![Event::BeginObjectValue] =~= variant_open_events(key_bytes(variant@)));
        }
    }

    /// Opens a tuple variant: `{"variant": [` and its `len` items.
    pub fn serialize_tuple_variant(&mut self, _name: &str, _variant_index: u32, variant: &str, len: usize) -> (r: Result<Compound>)
        ensures
            r matches Ok(c) && (if len == 0 {
                c.state == State::Empty && wrote(*old(self), *final(self), variant_open_events(key_bytes(variant@)) + seq![Event::BeginArray, Event::EndArray])
            } else {
                c.state == State::First && wrote(*old(self), *final(self), variant_open_events(key_bytes(variant@)) + seq![Event::BeginArray])
            }),
    {
        let ghost s0 = *self;
        self.begin_variant(variant);
        let ghost s1 = *self;
        let r = self.serialize_seq(Some(len));
        proof {
            if len == 0 {
                lemma_wrote_concat(s0, s1, *self, variant_open_events(key_bytes(variant@)), seq![Event::BeginArray, Event::EndArray]);
            } else {
                lemma_wrote_concat(s0, s1, *self, variant_open_events(key_bytes(variant@)), seq![Event::BeginArray]);
            }
        }
        r
    }

    /// Closes a tuple variant.
    pub fn end_tuple_variant(&mut self, c: Compound) -> (r: Result<()>)
        ensures
            r is Ok,
            wrote(*old(self), *final(self), (if c.state == State::Empty { Seq::empty() } else { seq![Event::EndArray] }) + seq![Event::EndObjectValue, Event::EndObject]),
    {
        let ghost s0 = *self;
        let ghost head = if c.state == State::Empty { Seq::<Event>::empty() } else { seq![Event::EndArray] };
        let _ = self.end_seq(c);
        let ghost s1 = *self;
        self.end_variant();
        proof {
            lemma_wrote_concat(s0, s1, *self, head, seq![Event::EndObjectValue, Event::EndObject]);
        }
        Ok(())
    }

    /// Opens a struct variant: `{"variant": {` and its `len` fields.
    pub fn serialize_struct_variant(&mut self, _name: &str, _variant_index: u32, variant: &str, len: usize) -> (r: Result<Compound>)
        ensures
            r matches Ok(c) && (if len == 0 {
                c.state == State::Empty && wrote(*old(self), *final(self), variant_open_events(key_bytes(variant@)) + seq![Event::BeginObject, Event::EndObject])
            } else {
                c.state == State::First && wrote(*old(self), *final(self), variant_open_events(key_bytes(variant@)) + seq![Event::BeginObject])
            }),
    {
        let ghost s0 = *self;
        self.begin_variant(variant);
        let ghost s1 = *self;
        let r = self.serialize_map(Some(len));
        proof {
            if len == 0 {
                lemma_wrote_concat(s0, s1, *self, variant_open_events(key_bytes(variant@)), seq![Event::BeginObject, Event::EndObject]);
            } else {
                lemma_wrote_concat(s0, s1, *self, variant_open_events(key_bytes(variant@)), seq![Event::BeginObject]);
            }
        }
        r
    }

    /// Closes a struct variant.
    pub fn end_struct_variant(&mut self, c: Compound) -> (r: Result<()>)
        ensures
            r is Ok,
            wrote(*old(self), *final(self), (if c.state == State::Empty { Seq::empty() } else { seq![Event::EndObject] }) + seq![Event::EndObjectValue, Event::EndObject]),
    {
        let ghost s0 = *self;
        let ghost head = if c.state == State::Empty { Seq::<Event>::empty() } else { seq![Event::EndObject] };
        let _ = self.end_map(c);
        let ghost s1 = *self;
        self.end_variant();
        proof {
            lemma_wrote_concat(s0, s1, *self, head, seq![Event::EndObjectValue, Event::EndObject]);
        }
        Ok(())
    }

    fn end_variant(&mut self)
        ensures
            wrote(*old(self), *final(self), seq![Event::EndObjectValue, Event::EndObject]),
    {
        let ghost s0 = *self;
        self.emit_one(FmtCall::EndObjectValue);
        let ghost s1 = *self;
        self.emit_one(FmtCall::EndObject);
        proof {
            lemma_wrote_concat(s0, s1, *self, seq![Event::EndObjectValue], seq![Event::EndObject]);
            assert(seq![Event::EndObjectValue] + seq![Event::EndObject] =~= seq![Event::EndObjectValue, Event::EndObject]);
        }
    }

    /// Writes a value.
    #[verifier::spinoff_prover]
    #[verifier::rlimit(60)]
    pub fn serialize_value(&mut self, value: &Value) -> (r: Result<()>)
        ensures
            r is Ok,
            wrote(*old(self), *final(self), value_events(*value)),
        decreases *value,
    {
        let ghost f0 = self.formatter;
        let ghost w0 = self.writer@;
        match value {
            Value::Null => self.serialize_unit(),
            Value::Bool(b) => self.serialize_bool(*b),
            Value::Number(n) => self.serialize_number(n),
            Value::String(s) => self.serialize_str(s.as_str()),
            Value::Array(a) => {
                let ghost v = a@;
                if a.len() == 0 {
                    proof {
                        lemma_run_step(f0, Event::BeginArray, seq![Event::EndArray]);
                        lemma_run_one(f0.after(Event::BeginArray), Event::EndArray);
                        assert(seq![Event::BeginArray] + seq![Event::EndArray] =~= seq![Event::BeginArray, Event::EndArray]);
                    }
                    self.formatter.begin_array(&mut self.writer);
                    self.formatter.end_array(&mut self.writer);
                    assert(self.writer@ =~= w0 + run_text(f0, seq![Event::BeginArray, Event::EndArray]));
                    return Ok(());
                }
                proof {
                    lemma_run_step(f0, Event::BeginArray, items_events(v, true) + seq![Event::EndArray]);
                    assert(seq![Event::BeginArray] + (items_events(v, true) + seq![Event::EndArray]) =~= value_events(*value));
                    assert(v.subrange(0, v.len() as int) =~= v);
                }
                self.formatter.begin_array(&mut self.writer);
                let mut i: usize = 0;
                while i < a.len()
                    invariant
                        v == a@,
                        v.len() > 0,
                        i <= v.len(),
                        *value == Value::Array(*a),
                        w0 + run_text(f0, value_events(*value)) == self.writer@ + run_text(self.formatter, items_events(v.subrange(i as int, v.len() as int), i == 0) + seq![Event::EndArray]),
                        run_state(f0, value_events(*value)) == run_state(self.formatter, items_events(v.subrange(i as int, v.len() as int), i == 0) + seq![Event::EndArray]),
                        w0 == old(self).writer@,
                        f0 == old(self).formatter,
                    decreases v.len() - i,
                {
                    let ghost sub = v.subrange(i as int, v.len() as int);
                    let ghost rest = items_events(v.subrange(i + 1, v.len() as int), false) + seq![Event::EndArray];
                    let ghost ev = value_events(v[i as int]);
                    proof {
                        assert(sub.drop_first() =~= v.subrange(i + 1, v.len() as int));
                        assert(items_events(sub, i == 0) + seq![Event::EndArray] =~= seq![Event::BeginArrayValue(i == 0)] + (ev + (seq![Event::EndArrayValue] + rest)));
                        lemma_run_step(self.formatter, Event::BeginArrayValue(i == 0), ev + (seq![Event::EndArrayValue] + rest));
                    }
                    self.formatter.begin_array_value(&mut self.writer, i == 0);
                    proof {
                        lemma_run_concat(self.formatter, ev, seq![Event::EndArrayValue] + rest);
                        assert(decreases_to!(a => a@[i as int]));
                    }
                    let _ = self.serialize_value(&a[i]);
                    proof {
                        lemma_run_step(self.formatter, Event::EndArrayValue, rest);
                    }
                    self.formatter.end_array_value(&mut self.writer);
                    i = i + 1;
                    proof {
                        assert(self.writer@ + run_text(self.formatter, rest) =~= w0 + run_text(f0, value_events(*value)));
                    }
                }
                proof {
                    assert(v.subrange(i as int, v.len() as int) =~= Seq::<Value>::empty());
                    lemma_run_one(self.formatter, Event::EndArray);
                    assert(Seq::<Event>::empty() + seq![Event::EndArray] =~= seq![Event::EndArray]);
                }
                self.formatter.end_array(&mut self.writer);
                assert(self.writer@ =~= w0 + run_text(f0, value_events(*value)));
                Ok(())
            },
            Value::Object(m) => {
                let es = m.entries();
                let ghost v = es@;
                if es.len() == 0 {
                    proof {
                        lemma_run_step(f0, Event::BeginObject, seq![Event::EndObject]);
                        lemma_run_one(f0.after(Event::BeginObject), Event::EndObject);
                        assert(seq![Event::BeginObject] + seq![Event::EndObject] =~= seq![Event::BeginObject, Event::EndObject]);
                    }
                    self.formatter.begin_object(&mut self.writer);
                    self.formatter.end_object(&mut self.writer);
                    assert(self.writer@ =~= w0 + run_text(f0, seq![Event::BeginObject, Event::EndObject]));
                    return Ok(());
                }
                proof {
                    lemma_run_step(f0, Event::BeginObject, entries_events(v, true) + seq![Event::EndObject]);
                    assert(seq![Event::BeginObject] + (entries_events(v, true) + seq![Event::EndObject]) =~= value_events(*value));
                    assert(v.subrange(0, v.len() as int) =~= v);
                }
                self.formatter.begin_object(&mut self.writer);
                let mut i: usize = 0;
                while i < es.len()
                    invariant
                        v == es@,
                        v == m.spec_entries(),
                        v.len() > 0,
                        i <= v.len(),
                        *value == Value::Object(*m),
                        w0 + run_text(f0, value_events(*value)) == self.writer@ + run_text(self.formatter, entries_events(v.subrange(i as int, v.len() as int), i == 0) + seq![Event::EndObject]),
                        run_state(f0, value_events(*value)) == run_state(self.formatter, entries_events(v.subrange(i as int, v.len() as int), i == 0) + seq![Event::EndObject]),
                        w0 == old(self).writer@,
                        f0 == old(self).formatter,
                    decreases v.len() - i,
                {
                    let ghost sub = v.subrange(i as int, v.len() as int);
                    let ghost rest = entries_events(v.subrange(i + 1, v.len() as int), false) + seq![Event::EndObject];
                    let ghost ks = string_events(key_bytes(v[i as int].0@));
                    let ghost ev = value_events(v[i as int].1);
                    let ghost tail = seq![Event::EndObjectValue] + rest;
                    let ghost mid = seq![Event::EndObjectKey] + (seq![Event::BeginObjectValue] + (ev + tail));
                    proof {
                        assert(sub.drop_first() =~= v.subrange(i + 1, v.len() as int));
                        assert(entries_events(sub, i == 0) + seq![Event::EndObject] =~= seq![Event::BeginObjectKey(i == 0)] + (ks + mid));
                        lemma_run_step(self.formatter, Event::BeginObjectKey(i == 0), ks + mid);
                    }
                    self.formatter.begin_object_key(&mut self.writer, i == 0);
                    proof {
                        lemma_run_concat(self.formatter, ks, mid);
                    }
                    self.format_escaped_str(es[i].0.as_str().as_bytes());
                    proof {
                        lemma_run_step(self.formatter, Event::EndObjectKey, seq![Event::BeginObjectValue] + (ev + tail));
                    }
                    self.formatter.end_object_key(&mut self.writer);
                    proof {
                        lemma_run_step(self.formatter, Event::BeginObjectValue, ev + tail);
                    }
                    self.formatter.begin_object_value(&mut self.writer);
                    proof {
                        lemma_run_concat(self.formatter, ev, tail);
                        m.lemma_entries_decrease();
                        assert(decreases_to!(v => v[i as int]));
                    }
                    let _ = self.serialize_value(&es[i].1);
                    proof {
                        lemma_run_step(self.formatter, Event::EndObjectValue, rest);
                    }
                    self.formatter.end_object_value(&mut self.writer);
                    i = i + 1;
                    proof {
                        assert(self.writer@ + run_text(self.formatter, rest) =~= w0 + run_text(f0, value_events(*value)));
                    }
                }
                proof {
                    assert(v.subrange(i as int, v.len() as int) =~= Seq::<(String, Value)>::empty());
                    lemma_run_one(self.formatter, Event::EndObject);
                    assert(Seq::<Event>::empty() + seq![Event::EndObject] =~= seq![Event::EndObject]);
                }
                self.formatter.end_object(&mut self.writer);
                assert(self.writer@ =~= w0 + run_text(f0, value_events(*value)));
                Ok(())
            },
        }
    }
}

pub proof fn lemma_run_one<F: Formatter>(f: F, e: Event)
    ensures
        run_text(f, seq![e]) == f.emit(e),
        run_state(f, seq![e]) == f.after(e),
{
    lemma_run_step(f, e, Seq::empty());
    assert(seq![e] + Seq::<Event>::empty() =~= seq![e]);
    assert(f.emit(e) + Seq::<u8>::empty() =~= f.emit(e));
}

/// The events of the items of a byte array.
pub open spec fn byte_items_events(b: Seq<u8>, first: bool) -> Seq<Event>
    decreases b.len(),
{
    if b.len() == 0 {
        Seq::empty()
    } else {
        seq![Event::BeginArrayValue(first), Event::Number(int_text(b[0] as int)), Event::EndArrayValue]
            + byte_items_events(b.drop_first(), false)
    }
}

/// The events of a byte string written as an array of numbers.
pub open spec fn bytes_events(b: Seq<u8>) -> Seq<Event> {
    if b.len() == 0 {
        seq![Event::BeginArray, Event::EndArray]
    } else {
        seq![Event::BeginArray] + byte_items_events(b, true) + seq![Event::EndArray]
    }
}


/// The bytes that the indenting formatter writes for `evs`, from nesting level
/// `level`, with indentation `ind` per level.
pub open spec fn pretty_run(level: usize, has_value: bool, ind: Seq<u8>, evs: Seq<Event>) -> Seq<u8>
    decreases evs.len(),
{
    if evs.len() == 0 {
        Seq::empty()
    } else {
        pretty_text(level, has_value, ind, evs[0]) + pretty_run(
            pretty_indent_after(level, evs[0]),
            pretty_has_value_after(has_value, evs[0]),
            ind,
            evs.drop_first(),
        )
    }
}

pub proof fn lemma_pretty_run<'a>(f: PrettyFormatter<'a>, evs: Seq<Event>)
    ensures
        run_text(f, evs) == pretty_run(f.spec_level(), f.spec_has_value(), f.spec_indent(), evs),
    decreases evs.len(),
{
    if evs.len() > 0 {
        lemma_pretty_run(f.after(evs[0]), evs.drop_first());
    }
}

/// The compact JSON text of a value.
pub open spec fn compact(v: Value) -> Seq<u8> {
    run_text(CompactFormatter, value_events(v))
}

/// The indented JSON text of a value, two spaces per level.
pub open spec fn pretty(v: Value) -> Seq<u8> {
    pretty_run(0, false, seq![32u8, 32u8], value_events(v))
}

/// The compact JSON text of a value, as bytes.
pub fn to_vec(value: &Value) -> (r: Result<Vec<u8>>)
    ensures
        r matches Ok(bytes) && bytes@ == compact(*value),
{
    let mut ser = Serializer::new(Vec::with_capacity(128));
    let _ = ser.serialize_value(value);
    let out = ser.into_inner();
    assert(out@ =~= compact(*value));
    Ok(out)
}

/// The indented JSON text of a value, as bytes.
pub fn to_vec_pretty(value: &Value) -> (r: Result<Vec<u8>>)
    ensures
        r matches Ok(bytes) && bytes@ == pretty(*value),
{
    let mut ser = Serializer::pretty(Vec::with_capacity(128));
    proof {
        lemma_pretty_run(ser.spec_formatter(), value_events(*value));
    }
    let _ = ser.serialize_value(value);
    let out = ser.into_inner();
    assert(out@ =~= pretty(*value));
    Ok(out)
}

/// The compact JSON text of a value.
pub fn to_string(value: &Value) -> (r: Result<String>)
    ensures
        r matches Ok(s) && encode_utf8(s@) == compact(*value),
{
    let bytes = match to_vec(value) {
        Ok(b) => b,
        Err(e) => return Err(e),
    };
    proof {
        lemma_compact_valid_utf8(*value);
    }
    match string_from_utf8(bytes) {
        Some(s) => Ok(s),
        None => Err(Error::syntax(ErrorCode::InvalidUnicodeCodePoint, 0, 0)),
    }
}

/// The indented JSON text of a value.
pub fn to_string_pretty(value: &Value) -> (r: Result<String>)
    ensures
        r matches Ok(s) && encode_utf8(s@) == pretty(*value),
{
    let bytes = match to_vec_pretty(value) {
        Ok(b) => b,
        Err(e) => return Err(e),
    };
    let f = PrettyFormatter::new();
    proof {
        lemma_pretty_valid_utf8(f, *value);
        lemma_pretty_run(f, value_events(*value));
    }
    match string_from_utf8(bytes) {
        Some(s) => Ok(s),
        None => Err(Error::syntax(ErrorCode::InvalidUnicodeCodePoint, 0, 0)),
    }
}


/// The error of a map key that is not a string.
/// The error of a refused map key: `KeyMustBeAString`, with no position.
pub open spec fn refused_key(e: Error) -> bool {
    &&& e.spec_code() == ErrorCode::KeyMustBeAString
    &&& e.spec_line() == 0
    &&& e.spec_column() == 0
}

fn key_must_be_a_string() -> (e: Error)
    ensures
        refused_key(e),
{
    Error::syntax(ErrorCode::KeyMustBeAString, 0, 0)
}

/// The events of `{"variant": value}`, with the variant's bytes and the
/// value's events.
pub open spec fn variant_events(variant: Seq<u8>, value: Seq<Event>) -> Seq<Event> {
    seq![Event::BeginObject, Event::BeginObjectKey(true)] + string_events(variant) + seq![
        Event::EndObjectKey,
        Event::BeginObjectValue,
    ] + value + seq![Event::EndObjectValue, Event::EndObject]
}

/// The events of a number written inside quotes.
pub open spec fn quoted_number_events(text: Seq<u8>) -> Seq<Event> {
    seq![Event::BeginString, Event::Number(text), Event::EndString]
}

proof fn lemma_quoted<F: Formatter>(f: F, text: Seq<u8>)
    ensures
        run_text(f, quoted_number_events(text)) == f.emit(Event::BeginString) + f.after(
            Event::BeginString,
        ).emit(Event::Number(text)) + f.after(Event::BeginString).after(Event::Number(text)).emit(
            Event::EndString,
        ),
        run_state(f, quoted_number_events(text)) == f.after(Event::BeginString).after(
            Event::Number(text),
        ).after(Event::EndString),
{
    let f1 = f.after(Event::BeginString);
    let f2 = f1.after(Event::Number(text));
    lemma_run_step(f, Event::BeginString, seq![Event::Number(text), Event::EndString]);
    assert(seq![Event::BeginString] + seq![Event::Number(text), Event::EndString] =~= quoted_number_events(text));
    lemma_run_step(f1, Event::Number(text), seq![Event::EndString]);
    assert(seq![Event::Number(text)] + seq![Event::EndString] =~= seq![Event::Number(text), Event::EndString]);
    lemma_run_one(f2, Event::EndString);
    assert(f.emit(Event::BeginString) + (f1.emit(Event::Number(text)) + f2.emit(Event::EndString)) =~= f.emit(Event::BeginString) + f1.emit(Event::Number(text)) + f2.emit(Event::EndString));
}


/// Where a map or array being written stands: closed at once because it is
/// empty, before its first entry, or after one.
#[derive(Clone, Copy, Debug, PartialEq, Eq, Structural)]
pub enum State {
    Empty,
    First,
    Rest,
}

/// An array or object being written, entry by entry.
#[derive(Clone, Copy, Debug, PartialEq, Eq, Structural)]
pub struct Compound {
    pub state: State,
}

/// A structural formatter call.
#[derive(Clone, Copy, PartialEq, Eq, Structural)]
enum FmtCall {
    BeginArray,
    EndArray,
    BeginArrayValue(bool),
    EndArrayValue,
    BeginObject,
    EndObject,
    BeginObjectKey(bool),
    EndObjectKey,
    BeginObjectValue,
    EndObjectValue,
}

spec fn call_event(c: FmtCall) -> Event {
    match c {
        FmtCall::BeginArray => Event::BeginArray,
        FmtCall::EndArray => Event::EndArray,
        FmtCall::BeginArrayValue(first) => Event::BeginArrayValue(first),
        FmtCall::EndArrayValue => Event::EndArrayValue,
        FmtCall::BeginObject => Event::BeginObject,
        FmtCall::EndObject => Event::EndObject,
        FmtCall::BeginObjectKey(first) => Event::BeginObjectKey(first),
        FmtCall::EndObjectKey => Event::EndObjectKey,
        FmtCall::BeginObjectValue => Event::BeginObjectValue,
        FmtCall::EndObjectValue => Event::EndObjectValue,
    }
}

/// The events of a map key: a string, or an integer inside quotes.
pub open spec fn key_events(key: Value) -> Seq<Event> {
    match key {
        Value::String(s) => string_events(key_bytes(s@)),
        Value::Number(Number::PosInt(u)) => quoted_number_events(int_text(u as int)),
        Value::Number(Number::NegInt(i)) => quoted_number_events(int_text(i as int)),
        _ => Seq::empty(),
    }
}

/// The events of `{"variant": `, before the value of an enum variant.
pub open spec fn variant_open_events(variant: Seq<u8>) -> Seq<Event> {
    seq![Event::BeginObject, Event::BeginObjectKey(true)] + string_events(variant) + seq![
        Event::EndObjectKey,
        Event::BeginObjectValue,
    ]
}

pub proof fn lemma_wrote_concat<F: Formatter>(
    s0: Serializer<F>,
    s1: Serializer<F>,
    s2: Serializer<F>,
    a: Seq<Event>,
    b: Seq<Event>,
)
    requires
        wrote(s0, s1, a),
        wrote(s1, s2, b),
    ensures
        wrote(s0, s2, a + b),
{
    lemma_run_concat(s0.spec_formatter(), a, b);
    assert(s2.spec_written() =~= s0.spec_written() + run_text(s0.spec_formatter(), a + b));
}


proof fn lemma_ascii_event(e: Event)
    requires
        !(e is Number) && !(e is Fragment) && !(e is RawFragment),
    ensures
        valid_utf8(compact_text(e)),
        forall|j: int| 0 <= j < compact_text(e).len() ==> #[trigger] compact_text(e)[j] < 0x80,
        run_text(CompactFormatter, seq![e]) == compact_text(e),
{
    lemma_run_one(CompactFormatter, e);
    let t = compact_text(e);
    if let Event::Escape(CharEscape::AsciiControl(b)) = e {
        assert(hex_digit(b / 16) < 0x80);
        assert(hex_digit(b % 16) < 0x80);
    }
    assert forall|i: int| 0 <= i < t.len() implies t[i] < 0x80 by {
    }
    lemma_ascii_valid_utf8(t);
}

/// Formatters in states that satisfy `plain` write their structural events
/// as valid UTF-8, write fragments and numbers as they are, and stay in such
/// states.
pub open spec fn utf8_formatter<F: Formatter>(plain: spec_fn(F) -> bool) -> bool {
    &&& forall|g: F, e: Event| plain(g) ==> plain(#[trigger] g.after(e))
    &&& forall|g: F, e: Event|
        plain(g) && !(e is Number) && !(e is Fragment) && !(e is RawFragment) ==> valid_utf8(
            #[trigger] g.emit(e),
        )
    &&& forall|g: F, t: Seq<u8>| plain(g) ==> #[trigger] g.emit(Event::Number(t)) == t
    &&& forall|g: F, t: Seq<u8>| plain(g) ==> #[trigger] g.emit(Event::Fragment(t)) == t
}

proof fn lemma_plain_run<F: Formatter>(f: F, plain: spec_fn(F) -> bool, evs: Seq<Event>)
    requires
        utf8_formatter(plain),
        plain(f),
    ensures
        plain(run_state(f, evs)),
    decreases evs.len(),
{
    if evs.len() > 0 {
        assert(plain(f.after(evs[0])));
        lemma_plain_run(f.after(evs[0]), plain, evs.drop_first());
    }
}

/// `run_text` of `a + b` is valid when both parts are.
proof fn lemma_run_valid_concat<F: Formatter>(f: F, a: Seq<Event>, b: Seq<Event>)
    requires
        valid_utf8(run_text(f, a)),
        valid_utf8(run_text(run_state(f, a), b)),
    ensures
        valid_utf8(run_text(f, a + b)),
{
    lemma_run_concat(f, a, b);
    valid_utf8_concat(run_text(f, a), run_text(run_state(f, a), b));
}

proof fn lemma_one_valid<F: Formatter>(f: F, plain: spec_fn(F) -> bool, e: Event)
    requires
        utf8_formatter(plain),
        plain(f),
        !(e is Number) && !(e is Fragment) && !(e is RawFragment),
    ensures
        valid_utf8(run_text(f, seq![e])),
{
    lemma_run_one(f, e);
    assert(valid_utf8(f.emit(e)));
}

proof fn lemma_empty_run_valid<F: Formatter>(f: F)
    ensures
        valid_utf8(run_text(f, Seq::<Event>::empty())),
{
    lemma_ascii_valid_utf8(Seq::<u8>::empty());
}

/// Writing the contents of a string from offset `start` (a valid UTF-8 tail)
/// gives valid UTF-8: every plain run is cut at ASCII bytes.
proof fn lemma_contents_valid<F: Formatter>(
    f: F,
    plain: spec_fn(F) -> bool,
    b: Seq<u8>,
    start: int,
    i: int,
)
    requires
        utf8_formatter(plain),
        plain(f),
        0 <= start <= i <= b.len(),
        valid_utf8(b.subrange(start, b.len() as int)),
    ensures
        valid_utf8(run_text(f, contents_events(b, start, i))),
    decreases b.len() - i,
{
    let c = b.subrange(start, b.len() as int);
    if i >= b.len() {
        if start < b.len() {
            let fr = Event::Fragment(b.subrange(start, b.len() as int));
            lemma_run_one(f, fr);
            assert(f.emit(fr) == b.subrange(start, b.len() as int));
        } else {
            lemma_empty_run_valid(f);
        }
    } else if escape_of(b[i]) is Some {
        let k = i - start;
        assert(c[k] == b[i]);
        assert(is_leading_byte_width_1(c[k]));
        is_char_boundary_iff_is_leading_byte(c, k);
        valid_utf8_split(c, k);
        assert(c.subrange(0, k) =~= b.subrange(start, i));
        let tail = c.subrange(k, c.len() as int);
        assert(tail =~= b.subrange(i, b.len() as int));
        assert(pop_first_scalar(tail) =~= b.subrange(i + 1, b.len() as int));
        let esc = Event::Escape(escape_of(b[i])->0);
        let rest = contents_events(b, i + 1, i + 1);
        let lead = if start < i {
            seq![Event::Fragment(b.subrange(start, i))]
        } else {
            Seq::<Event>::empty()
        };
        if start < i {
            let fr = Event::Fragment(b.subrange(start, i));
            lemma_run_one(f, fr);
            assert(f.emit(fr) == b.subrange(start, i));
        } else {
            lemma_empty_run_valid(f);
        }
        let f1 = run_state(f, lead);
        lemma_plain_run(f, plain, lead);
        lemma_one_valid(f1, plain, esc);
        lemma_plain_run(f1, plain, seq![esc]);
        lemma_contents_valid(run_state(f1, seq![esc]), plain, b, i + 1, i + 1);
        lemma_run_valid_concat(f1, seq![esc], rest);
        lemma_run_valid_concat(f, lead, seq![esc] + rest);
        assert(lead + seq![esc] + rest =~= lead + (seq![esc] + rest));
    } else {
        lemma_contents_valid(f, plain, b, start, i + 1);
    }
}

proof fn lemma_string_valid<F: Formatter>(f: F, plain: spec_fn(F) -> bool, b: Seq<u8>)
    requires
        utf8_formatter(plain),
        plain(f),
        valid_utf8(b),
    ensures
        valid_utf8(run_text(f, string_events(b))),
        plain(run_state(f, string_events(b))),
{
    assert(b.subrange(0, b.len() as int) =~= b);
    let open = seq![Event::BeginString];
    let mid = contents_events(b, 0, 0);
    let close = seq![Event::EndString];
    lemma_one_valid(f, plain, Event::BeginString);
    lemma_plain_run(f, plain, open);
    let f1 = run_state(f, open);
    lemma_contents_valid(f1, plain, b, 0, 0);
    lemma_plain_run(f1, plain, mid);
    let f2 = run_state(f1, mid);
    lemma_one_valid(f2, plain, Event::EndString);
    lemma_run_valid_concat(f1, mid, close);
    lemma_run_valid_concat(f, open, mid + close);
    assert(open + (mid + close) =~= string_events(b));
    lemma_plain_run(f, plain, string_events(b));
}

pub proof fn lemma_int_text_valid(i: int)
    ensures
        valid_utf8(int_text(i)),
{
    let t = int_text(i);
    lemma_decimal_ascii(if i < 0 { (-i) as nat } else { i as nat });
    assert forall|j: int| 0 <= j < t.len() implies t[j] < 0x80 by {
        if i < 0 {
            if j > 0 {
                assert(t[j] == decimal((-i) as nat)[j - 1]);
            }
        }
    }
    lemma_ascii_valid_utf8(t);
}

proof fn lemma_decimal_ascii(n: nat)
    ensures
        forall|j: int| 0 <= j < decimal(n).len() ==> #[trigger] decimal(n)[j] < 0x80,
    decreases n,
{
    if n >= 10 {
        lemma_decimal_ascii(n / 10);
        let d = decimal(n);
        let h = decimal(n / 10);
        assert forall|j: int| 0 <= j < d.len() implies #[trigger] d[j] < 0x80 by {
            if j < h.len() {
                assert(d[j] == h[j]);
            }
        }
    }
}

/// Wraps `mid` in a one-event opener and closer, keeping validity.
proof fn lemma_wrapped_valid<F: Formatter>(
    f: F,
    plain: spec_fn(F) -> bool,
    open: Event,
    mid: Seq<Event>,
    close: Event,
)
    requires
        utf8_formatter(plain),
        plain(f),
        !(open is Number) && !(open is Fragment) && !(open is RawFragment),
        !(close is Number) && !(close is Fragment) && !(close is RawFragment),
        valid_utf8(run_text(run_state(f, seq![open]), mid)),
    ensures
        valid_utf8(run_text(f, seq![open] + mid + seq![close])),
{
    let f1 = run_state(f, seq![open]);
    lemma_one_valid(f, plain, open);
    lemma_plain_run(f, plain, seq![open]);
    lemma_plain_run(f1, plain, mid);
    lemma_one_valid(run_state(f1, mid), plain, close);
    lemma_run_valid_concat(f1, mid, seq![close]);
    lemma_run_valid_concat(f, seq![open], mid + seq![close]);
    assert(seq![open] + (mid + seq![close]) =~= seq![open] + mid + seq![close]);
}

/// A formatter whose states satisfy `plain` writes every value as valid
/// UTF-8.
pub proof fn lemma_value_valid_utf8<F: Formatter>(f: F, plain: spec_fn(F) -> bool, v: Value)
    requires
        utf8_formatter(plain),
        plain(f),
    ensures
        valid_utf8(run_text(f, value_events(v))),
    decreases v, 2int,
{
    match v {
        Value::Null => lemma_one_valid(f, plain, Event::Null),
        Value::Bool(b) => lemma_one_valid(f, plain, Event::Bool(b)),
        Value::Number(n) => {
            lemma_run_one(f, Event::Number(number_text(n)));
            assert(f.emit(Event::Number(number_text(n))) == number_text(n));
            match n {
                Number::Float(t) => encode_utf8_valid_utf8(t@),
                Number::PosInt(u) => lemma_int_text_valid(u as int),
                Number::NegInt(i) => lemma_int_text_valid(i as int),
            }
        },
        Value::String(s) => {
            encode_utf8_valid_utf8(s@);
            lemma_string_valid(f, plain, key_bytes(s@));
        },
        Value::Array(a) => {
            if a@.len() == 0 {
                lemma_wrapped_valid(f, plain, Event::BeginArray, Seq::empty(), Event::EndArray);
                assert(seq![Event::BeginArray] + Seq::<Event>::empty() + seq![Event::EndArray] =~= seq![Event::BeginArray, Event::EndArray]);
                lemma_empty_run_valid(run_state(f, seq![Event::BeginArray]));
            } else {
                assert(decreases_to!(a => a@));
                lemma_plain_run(f, plain, seq![Event::BeginArray]);
                lemma_items_valid(run_state(f, seq![Event::BeginArray]), plain, a@, true);
                lemma_wrapped_valid(f, plain, Event::BeginArray, items_events(a@, true), Event::EndArray);
            }
        },
        Value::Object(m) => {
            if m.spec_entries().len() == 0 {
                lemma_empty_run_valid(run_state(f, seq![Event::BeginObject]));
                lemma_wrapped_valid(f, plain, Event::BeginObject, Seq::empty(), Event::EndObject);
                assert(seq![Event::BeginObject] + Seq::<Event>::empty() + seq![Event::EndObject] =~= seq![Event::BeginObject, Event::EndObject]);
            } else {
                m.lemma_entries_decrease();
                lemma_plain_run(f, plain, seq![Event::BeginObject]);
                lemma_entries_valid(run_state(f, seq![Event::BeginObject]), plain, m.spec_entries(), true);
                lemma_wrapped_valid(f, plain, Event::BeginObject, entries_events(m.spec_entries(), true), Event::EndObject);
            }
        },
    }
}

proof fn lemma_items_valid<F: Formatter>(f: F, plain: spec_fn(F) -> bool, a: Seq<Value>, first: bool)
    requires
        utf8_formatter(plain),
        plain(f),
    ensures
        valid_utf8(run_text(f, items_events(a, first))),
    decreases a, 1int,
{
    if a.len() == 0 {
        lemma_empty_run_valid(f);
    } else {
        let item = seq![Event::BeginArrayValue(first)] + value_events(a[0]) + seq![Event::EndArrayValue];
        let rest = items_events(a.drop_first(), false);
        lemma_plain_run(f, plain, seq![Event::BeginArrayValue(first)]);
        lemma_value_valid_utf8(run_state(f, seq![Event::BeginArrayValue(first)]), plain, a[0]);
        lemma_wrapped_valid(f, plain, Event::BeginArrayValue(first), value_events(a[0]), Event::EndArrayValue);
        lemma_plain_run(f, plain, item);
        lemma_items_valid(run_state(f, item), plain, a.drop_first(), false);
        lemma_run_valid_concat(f, item, rest);
    }
}

proof fn lemma_entries_valid<F: Formatter>(
    f: F,
    plain: spec_fn(F) -> bool,
    es: Seq<(String, Value)>,
    first: bool,
)
    requires
        utf8_formatter(plain),
        plain(f),
    ensures
        valid_utf8(run_text(f, entries_events(es, first))),
    decreases es, 1int,
{
    if es.len() == 0 {
        lemma_empty_run_valid(f);
    } else {
        let open = seq![Event::BeginObjectKey(first)];
        let key = string_events(key_bytes(es[0].0@));
        let mid = seq![Event::EndObjectKey, Event::BeginObjectValue];
        let val = value_events(es[0].1);
        let close = seq![Event::EndObjectValue];
        let rest = entries_events(es.drop_first(), false);
        encode_utf8_valid_utf8(es[0].0@);
        // opener and key
        lemma_one_valid(f, plain, Event::BeginObjectKey(first));
        lemma_plain_run(f, plain, open);
        let f1 = run_state(f, open);
        lemma_string_valid(f1, plain, key_bytes(es[0].0@));
        lemma_run_valid_concat(f, open, key);
        // the two separators
        lemma_plain_run(f, plain, open + key);
        let f2 = run_state(f, open + key);
        lemma_one_valid(f2, plain, Event::EndObjectKey);
        lemma_plain_run(f2, plain, seq![Event::EndObjectKey]);
        lemma_one_valid(run_state(f2, seq![Event::EndObjectKey]), plain, Event::BeginObjectValue);
        lemma_run_valid_concat(f2, seq![Event::EndObjectKey], seq![Event::BeginObjectValue]);
        assert(seq![Event::EndObjectKey] + seq![Event::BeginObjectValue] =~= mid);
        lemma_run_valid_concat(f, open + key, mid);
        // the value
        lemma_plain_run(f, plain, open + key + mid);
        let f3 = run_state(f, open + key + mid);
        lemma_value_valid_utf8(f3, plain, es[0].1);
        lemma_run_valid_concat(f, open + key + mid, val);
        // the closer
        lemma_plain_run(f, plain, open + key + mid + val);
        lemma_one_valid(run_state(f, open + key + mid + val), plain, Event::EndObjectValue);
        lemma_run_valid_concat(f, open + key + mid + val, close);
        // the rest
        let all = open + key + mid + val + close;
        lemma_plain_run(f, plain, all);
        lemma_entries_valid(run_state(f, all), plain, es.drop_first(), false);
        lemma_run_valid_concat(f, all, rest);
        assert(all + rest =~= entries_events(es, first));
    }
}

/// The compact formatter writes every value as valid UTF-8.
pub proof fn lemma_compact_valid_utf8(v: Value)
    ensures
        valid_utf8(compact(v)),
{
    let plain = |g: CompactFormatter| true;
    assert forall|g: CompactFormatter, e: Event|
        plain(g) && !(e is Number) && !(e is Fragment) && !(e is RawFragment) implies valid_utf8(
        #[trigger] g.emit(e),
    ) by {
        lemma_ascii_event(e);
    }
    lemma_value_valid_utf8(CompactFormatter, plain, v);
}

/// Repeating ASCII bytes gives ASCII bytes.
proof fn lemma_repeat_ascii(s: Seq<u8>, n: nat)
    requires
        forall|j: int| 0 <= j < s.len() ==> #[trigger] s[j] < 0x80,
    ensures
        forall|j: int| 0 <= j < repeat(s, n).len() ==> #[trigger] repeat(s, n)[j] < 0x80,
    decreases n,
{
    if n > 0 {
        lemma_repeat_ascii(s, (n - 1) as nat);
        let r = repeat(s, n);
        let p = repeat(s, (n - 1) as nat);
        assert forall|j: int| 0 <= j < r.len() implies #[trigger] r[j] < 0x80 by {
            if j < p.len() {
                assert(r[j] == p[j]);
            } else {
                assert(r[j] == s[j - p.len()]);
            }
        }
    }
}

/// An indent of ASCII bytes.
pub open spec fn ascii_indent<'a>(g: PrettyFormatter<'a>) -> bool {
    forall|j: int| 0 <= j < g.spec_indent().len() ==> #[trigger] g.spec_indent()[j] < 0x80
}

/// The indenting formatter, with an ASCII indent, writes every value as valid
/// UTF-8.
pub proof fn lemma_pretty_valid_utf8<'a>(f: PrettyFormatter<'a>, v: Value)
    requires
        ascii_indent(f),
    ensures
        valid_utf8(run_text(f, value_events(v))),
{
    let plain = |g: PrettyFormatter<'a>| ascii_indent(g);
    assert forall|g: PrettyFormatter<'a>, e: Event|
        plain(g) && !(e is Number) && !(e is Fragment) && !(e is RawFragment) implies valid_utf8(
        #[trigger] g.emit(e),
    ) by {
        lemma_ascii_event(e);
        lemma_repeat_ascii(g.spec_indent(), level_out(g.spec_level()) as nat);
        lemma_repeat_ascii(g.spec_indent(), g.spec_level() as nat);
        let t = g.emit(e);
        assert(t == pretty_text(g.spec_level(), g.spec_has_value(), g.spec_indent(), e));
        let r1 = repeat(g.spec_indent(), level_out(g.spec_level()) as nat);
        let r2 = repeat(g.spec_indent(), g.spec_level() as nat);
        assert forall|j: int| 0 <= j < t.len() implies #[trigger] t[j] < 0x80 by {
            match e {
                Event::EndArray | Event::EndObject => {
                    if g.spec_has_value() && 1 <= j < 1 + r1.len() {
                        assert(t[j] == r1[j - 1]);
                    }
                },
                Event::BeginArrayValue(first) | Event::BeginObjectKey(first) => {
                    let h: int = if first { 1 } else { 2 };
                    if j >= h {
                        assert(t[j] == r2[j - h]);
                    }
                },
                Event::BeginObjectValue => {},
                _ => {
                    assert(t == compact_text(e));
                    assert(compact_text(e)[j] < 0x80);
                },
            }
        }
        lemma_ascii_valid_utf8(t);
    }
    assert forall|g: PrettyFormatter<'a>, e: Event| plain(g) implies plain(#[trigger] g.after(e)) by {
        assert(g.after(e).spec_indent() == g.spec_indent());
    }
    lemma_value_valid_utf8(f, plain, v);
}

} // verus!
