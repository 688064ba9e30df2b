//! The byte encoding of command records.
//!
//! A record is a JSON document without white space. A record that binds a
//! key reads `{"Set":{"key":"k","value":"v"}}`, one that drops a key reads
//! `{"Remove":{"key":"k"}}`. In a text the quote and the backslash are
//! escaped with a backslash, the control characters as `\b`, `\t`, `\n`,
//! `\f`, `\r` or `\u00xx` with lower-case digits, and every other character
//! stands as its UTF-8 bytes. Records are self-delimiting: a log is their
//! plain concatenation, and a decoder that starts at a record boundary finds
//! the next one. The decoder takes the records exactly as the encoder writes
//! them; any other spelling is no record.

use vstd::prelude::*;
use vstd::slice::slice_subrange;
use vstd::utf8::{
    decode_utf8, decode_utf8_encode_utf8, encode_utf8, encode_utf8_decode_utf8,
    encode_utf8_valid_utf8, valid_utf8,
};
use crate::command::{Command, CommandView};

verus! {

/// The quote that opens and closes a text.
pub const QUOTE: u8 = 0x22;

/// The backslash that starts an escape.
pub const BACKSLASH: u8 = 0x5c;

/// What a decoder finds at the start of a byte sequence.
pub enum Parsed<T> {
    /// A complete item, and the number of bytes it takes.
    Item { value: T, len: int },
    /// The bytes end before the item does.
    Truncated,
    /// The bytes cannot start any item.
    Corrupt,
}

/// The bytes before the key of a record that binds: `{"Set":{"key":`.
pub open spec fn set_head() -> Seq<u8> {
    seq![
        0x7bu8, 0x22u8, 0x53u8, 0x65u8, 0x74u8, 0x22u8, 0x3au8, 0x7bu8, 0x22u8, 0x6bu8, 0x65u8,
        0x79u8, 0x22u8, 0x3au8,
    ]
}

/// The bytes before the key of a record that drops: `{"Remove":{"key":`.
pub open spec fn remove_head() -> Seq<u8> {
    seq![
        0x7bu8, 0x22u8, 0x52u8, 0x65u8, 0x6du8, 0x6fu8, 0x76u8, 0x65u8, 0x22u8, 0x3au8, 0x7bu8,
        0x22u8, 0x6bu8, 0x65u8, 0x79u8, 0x22u8, 0x3au8,
    ]
}

/// The bytes between key and value: `,"value":`.
pub open spec fn value_head() -> Seq<u8> {
    seq![0x2cu8, 0x22u8, 0x76u8, 0x61u8, 0x6cu8, 0x75u8, 0x65u8, 0x22u8, 0x3au8]
}

/// The bytes that end a record: `}}`.
pub open spec fn record_end() -> Seq<u8> {
    seq![0x7du8, 0x7du8]
}

/// The lower-case hexadecimal digit of a number below 16.
pub open spec fn hex_digit(n: int) -> u8 {
    if n < 10 {
        (0x30 + n) as u8
    } else {
        (0x57 + n) as u8
    }
}

/// The number that a lower-case hexadecimal digit says, or -1.
pub open spec fn hex_value(c: u8) -> int {
    if 0x30 <= c <= 0x39 {
        c - 0x30
    } else if 0x61 <= c <= 0x66 {
        c - 0x57
    } else {
        -1
    }
}

/// The letter that escapes a control character which has a letter of its
/// own, or 0 for every other byte.
pub open spec fn escape_letter(b: u8) -> u8 {
    if b == 0x08 {
        0x62
    } else if b == 0x09 {
        0x74
    } else if b == 0x0a {
        0x6e
    } else if b == 0x0c {
        0x66
    } else if b == 0x0d {
        0x72
    } else {
        0
    }
}

/// The bytes that stand for one byte of a text.
pub open spec fn escape_byte(b: u8) -> Seq<u8> {
    if b == QUOTE || b == BACKSLASH {
        seq![BACKSLASH, b]
    } else if escape_letter(b) != 0 {
        seq![BACKSLASH, escape_letter(b)]
    } else if b < 0x20 {
        seq![BACKSLASH, 0x75u8, 0x30u8, 0x30u8, hex_digit(b as int / 16), hex_digit(b as int % 16)]
    } else {
        seq![b]
    }
}

/// The bytes that stand for the bytes of a text.
pub open spec fn escape(s: Seq<u8>) -> Seq<u8>
    decreases s.len(),
{
    if s.len() == 0 {
        Seq::empty()
    } else {
        escape_byte(s[0]) + escape(s.drop_first())
    }
}

/// The encoding of one text: its escaped UTF-8 bytes between quotes.
pub open spec fn quoted(text: Seq<char>) -> Seq<u8> {
    seq![QUOTE] + escape(encode_utf8(text)) + seq![QUOTE]
}

/// What follows the key in a record that binds a key.
pub open spec fn put_tail_bytes(value: Seq<char>) -> Seq<u8> {
    value_head() + (quoted(value) + record_end())
}

/// What follows the head in a record that drops a key.
pub open spec fn remove_body_bytes(key: Seq<char>) -> Seq<u8> {
    quoted(key) + record_end()
}

/// The encoding of one record.
pub open spec fn record_bytes(cmd: CommandView) -> Seq<u8> {
    match cmd {
        CommandView::Put { key, value } => set_head() + (quoted(key) + put_tail_bytes(value)),
        CommandView::Remove { key } => remove_head() + remove_body_bytes(key),
    }
}

/// The bytes `lit` at the start of `bytes`. Bytes that end within `lit` are
/// cut short; bytes that differ from it are corrupt.
pub open spec fn parse_literal(bytes: Seq<u8>, lit: Seq<u8>) -> Parsed<()> {
    if bytes.len() >= lit.len() {
        if bytes.take(lit.len() as int) == lit {
            Parsed::Item { value: (), len: lit.len() as int }
        } else {
            Parsed::Corrupt
        }
    } else if bytes == lit.take(bytes.len() as int) {
        Parsed::Truncated
    } else {
        Parsed::Corrupt
    }
}

/// The byte of a text that stands at the start of `bytes`, which are not
/// empty and do not start with a quote.
pub open spec fn parse_unit(bytes: Seq<u8>) -> Parsed<u8>
    recommends
        bytes.len() > 0,
        bytes[0] != QUOTE,
{
    if bytes[0] == BACKSLASH {
        if bytes.len() < 2 {
            Parsed::Truncated
        } else if bytes[1] == QUOTE || bytes[1] == BACKSLASH {
            Parsed::Item { value: bytes[1], len: 2 }
        } else if bytes[1] == 0x62 {
            Parsed::Item { value: 0x08, len: 2 }
        } else if bytes[1] == 0x74 {
            Parsed::Item { value: 0x09, len: 2 }
        } else if bytes[1] == 0x6e {
            Parsed::Item { value: 0x0a, len: 2 }
        } else if bytes[1] == 0x66 {
            Parsed::Item { value: 0x0c, len: 2 }
        } else if bytes[1] == 0x72 {
            Parsed::Item { value: 0x0d, len: 2 }
        } else if bytes[1] == 0x75 {
            if bytes.len() < 6 {
                Parsed::Truncated
            } else {
                let high = hex_value(bytes[4]);
                let low = hex_value(bytes[5]);
                let b = (high * 16 + low) as u8;
                if bytes[2] == 0x30 && bytes[3] == 0x30 && 0 <= high <= 1 && 0 <= low
                    && escape_letter(b) == 0 {
                    Parsed::Item { value: b, len: 6 }
                } else {
                    Parsed::Corrupt
                }
            }
        } else {
            Parsed::Corrupt
        }
    } else if bytes[0] < 0x20 {
        Parsed::Corrupt
    } else {
        Parsed::Item { value: bytes[0], len: 1 }
    }
}

/// The bytes `before`, of which `n` were read, in front of what was found
/// after them.
pub open spec fn joined(before: Seq<u8>, n: int, found: Parsed<Seq<u8>>) -> Parsed<Seq<u8>> {
    match found {
        Parsed::Item { value, len } => Parsed::Item { value: before + value, len: n + len },
        Parsed::Truncated => Parsed::Truncated,
        Parsed::Corrupt => Parsed::Corrupt,
    }
}

/// The bytes of the text that goes on at the start of `bytes`, up to the
/// quote that closes it.
pub open spec fn parse_escaped(bytes: Seq<u8>) -> Parsed<Seq<u8>>
    decreases bytes.len(),
{
    if bytes.len() == 0 {
        Parsed::Truncated
    } else if bytes[0] == QUOTE {
        Parsed::Item { value: Seq::empty(), len: 1 }
    } else {
        match parse_unit(bytes) {
            Parsed::Item { value, len } => if 0 < len <= bytes.len() {
                joined(seq![value], len, parse_escaped(bytes.skip(len)))
            } else {
                Parsed::Corrupt
            },
            Parsed::Truncated => Parsed::Truncated,
            Parsed::Corrupt => Parsed::Corrupt,
        }
    }
}

/// The text at the start of `bytes`.
pub open spec fn parse_text(bytes: Seq<u8>) -> Parsed<Seq<char>> {
    if bytes.len() == 0 {
        Parsed::Truncated
    } else if bytes[0] != QUOTE {
        Parsed::Corrupt
    } else {
        match parse_escaped(bytes.skip(1)) {
            Parsed::Item { value, len } => if valid_utf8(value) {
                Parsed::Item { value: decode_utf8(value), len: 1 + len }
            } else {
                Parsed::Corrupt
            },
            Parsed::Truncated => Parsed::Truncated,
            Parsed::Corrupt => Parsed::Corrupt,
        }
    }
}

/// What follows the head of a record that drops a key: the key and the end
/// of the record.
pub open spec fn parse_remove_body(bytes: Seq<u8>) -> Parsed<CommandView> {
    match parse_text(bytes) {
        Parsed::Item { value: key, len: key_len } => match parse_literal(
            bytes.skip(key_len),
            record_end(),
        ) {
            Parsed::Item { value: _, len: end_len } => Parsed::Item {
                value: CommandView::Remove { key },
                len: key_len + end_len,
            },
            Parsed::Truncated => Parsed::Truncated,
            Parsed::Corrupt => Parsed::Corrupt,
        },
        Parsed::Truncated => Parsed::Truncated,
        Parsed::Corrupt => Parsed::Corrupt,
    }
}

/// What follows the key of a record that binds a key: the value and the end
/// of the record.
pub open spec fn parse_put_tail(key: Seq<char>, bytes: Seq<u8>) -> Parsed<CommandView> {
    match parse_literal(bytes, value_head()) {
        Parsed::Item { value: _, len: head_len } => match parse_text(bytes.skip(head_len)) {
            Parsed::Item { value, len: value_len } => match parse_literal(
                bytes.skip(head_len + value_len),
                record_end(),
            ) {
                Parsed::Item { value: _, len: end_len } => Parsed::Item {
                    value: CommandView::Put { key, value },
                    len: head_len + value_len + end_len,
                },
                Parsed::Truncated => Parsed::Truncated,
                Parsed::Corrupt => Parsed::Corrupt,
            },
            Parsed::Truncated => Parsed::Truncated,
            Parsed::Corrupt => Parsed::Corrupt,
        },
        Parsed::Truncated => Parsed::Truncated,
        Parsed::Corrupt => Parsed::Corrupt,
    }
}

/// What follows the head of a record that binds a key.
pub open spec fn parse_put_body(bytes: Seq<u8>) -> Parsed<CommandView> {
    match parse_text(bytes) {
        Parsed::Item { value: key, len: key_len } => after(
            key_len,
            parse_put_tail(key, bytes.skip(key_len)),
        ),
        Parsed::Truncated => Parsed::Truncated,
        Parsed::Corrupt => Parsed::Corrupt,
    }
}

/// What was found after `n` bytes, counted from before them.
pub open spec fn after(n: int, found: Parsed<CommandView>) -> Parsed<CommandView> {
    match found {
        Parsed::Item { value, len } => Parsed::Item { value, len: n + len },
        Parsed::Truncated => Parsed::Truncated,
        Parsed::Corrupt => Parsed::Corrupt,
    }
}

/// The record at the start of `bytes`.
#[verifier::opaque]
pub open spec fn parse_record(bytes: Seq<u8>) -> Parsed<CommandView> {
    match parse_literal(bytes, set_head()) {
        Parsed::Item { value: _, len } => after(len, parse_put_body(bytes.skip(len))),
        Parsed::Truncated => Parsed::Truncated,
        Parsed::Corrupt => match parse_literal(bytes, remove_head()) {
            Parsed::Item { value: _, len } => after(len, parse_remove_body(bytes.skip(len))),
            Parsed::Truncated => Parsed::Truncated,
            Parsed::Corrupt => Parsed::Corrupt,
        },
    }
}

/// What [`decode_record`] found.
#[derive(Debug)]
pub enum Decoded {
    /// A complete record, and the number of bytes it takes.
    Record { cmd: Command, len: usize },
    /// The bytes end before the record does.
    Truncated,
    /// The bytes cannot start any record.
    Corrupt,
}

impl View for Decoded {
    type V = Parsed<CommandView>;

    open spec fn view(&self) -> Parsed<CommandView> {
        match self {
            Decoded::Record { cmd, len } => Parsed::Item { value: cmd@, len: *len as int },
            Decoded::Truncated => Parsed::Truncated,
            Decoded::Corrupt => Parsed::Corrupt,
        }
    }
}

/// A literal is found in front of any other bytes.
pub proof fn lemma_literal_found(lit: Seq<u8>, rest: Seq<u8>)
    ensures
        parse_literal(lit + rest, lit) == (Parsed::Item { value: (), len: lit.len() as int }),
{
    assert((lit + rest).take(lit.len() as int) =~= lit);
}

/// A literal that is cut short is found to be cut short.
pub proof fn lemma_literal_cut(lit: Seq<u8>, k: int)
    requires
        0 <= k < lit.len(),
    ensures
        parse_literal(lit.take(k), lit) is Truncated,
{
    assert(lit.take(k).len() == k);
}

/// One byte of a text decodes to itself in front of any other bytes.
pub proof fn lemma_parse_unit_of_escaped(b: u8, rest: Seq<u8>)
    ensures
        escape_byte(b).len() > 0,
        escape_byte(b)[0] != QUOTE,
        parse_unit(escape_byte(b) + rest) == (Parsed::Item {
            value: b,
            len: escape_byte(b).len() as int,
        }),
{
    let unit = escape_byte(b);
    let bytes = unit + rest;
    assert(bytes[0] == unit[0]);
    if unit.len() >= 2 {
        assert(bytes[1] == unit[1]);
    }
    if unit.len() == 6 {
        assert(bytes[2] == unit[2] && bytes[3] == unit[3]);
        assert(bytes[4] == unit[4] && bytes[5] == unit[5]);
        assert(hex_value(hex_digit(b as int / 16)) == b as int / 16);
        assert(hex_value(hex_digit(b as int % 16)) == b as int % 16);
    }
}

/// A byte of a text that was found is the escape of that byte.
pub proof fn lemma_parsed_unit_is_escaped(bytes: Seq<u8>)
    requires
        bytes.len() > 0,
        bytes[0] != QUOTE,
        parse_unit(bytes) is Item,
    ensures
        0 < parse_unit(bytes)->len <= bytes.len(),
        bytes.subrange(0, parse_unit(bytes)->len) == escape_byte(parse_unit(bytes)->value),
{
    let n = parse_unit(bytes)->len;
    let b = parse_unit(bytes)->value;
    if n == 6 {
        let high = hex_value(bytes[4]);
        let low = hex_value(bytes[5]);
        assert(b == high * 16 + low);
        assert(b / 16 == high && b % 16 == low);
        assert(hex_digit(high) == bytes[4]);
        assert(hex_digit(low) == bytes[5]);
    }
    assert(bytes.subrange(0, n) =~= escape_byte(b));
}

/// The escape of a byte that is cut short is found to be cut short.
pub proof fn lemma_parse_unit_cut(b: u8, k: int)
    requires
        0 < k < escape_byte(b).len(),
    ensures
        parse_unit(escape_byte(b).take(k)) is Truncated,
{
    let part = escape_byte(b).take(k);
    assert(part[0] == BACKSLASH);
    if k >= 2 {
        assert(part[1] == 0x75);
    }
}

/// The bytes of a text decode to themselves in front of any other bytes.
pub proof fn lemma_parse_escaped_of_escaped(s: Seq<u8>, rest: Seq<u8>)
    ensures
        parse_escaped(escape(s) + seq![QUOTE] + rest) == (Parsed::Item {
            value: s,
            len: escape(s).len() as int + 1,
        }),
    decreases s.len(),
{
    let bytes = escape(s) + seq![QUOTE] + rest;
    if s.len() == 0 {
        assert(bytes[0] == QUOTE);
        assert(s =~= Seq::<u8>::empty());
    } else {
        let unit = escape_byte(s[0]);
        let tail = escape(s.drop_first()) + seq![QUOTE] + rest;
        assert(bytes =~= unit + tail);
        lemma_parse_unit_of_escaped(s[0], tail);
        assert(bytes[0] == unit[0]);
        assert(bytes.skip(unit.len() as int) =~= tail);
        lemma_parse_escaped_of_escaped(s.drop_first(), rest);
        assert(seq![s[0]] + s.drop_first() =~= s);
    }
}

/// The bytes of a text that were found are the escape of those bytes, and
/// the quote that closes the text.
pub proof fn lemma_parsed_escaped_is_escaped(bytes: Seq<u8>)
    requires
        parse_escaped(bytes) is Item,
    ensures
        0 < parse_escaped(bytes)->len <= bytes.len(),
        bytes.subrange(0, parse_escaped(bytes)->len) == escape(parse_escaped(bytes)->value)
            + seq![QUOTE],
    decreases bytes.len(),
{
    if bytes[0] == QUOTE {
        assert(bytes.subrange(0, 1) =~= seq![QUOTE]);
        assert(escape(Seq::<u8>::empty()) =~= Seq::<u8>::empty());
    } else {
        lemma_parsed_unit_is_escaped(bytes);
        let n = parse_unit(bytes)->len;
        let b = parse_unit(bytes)->value;
        let rest = bytes.skip(n);
        lemma_parsed_escaped_is_escaped(rest);
        let s = parse_escaped(rest)->value;
        let m = parse_escaped(rest)->len;
        let all = seq![b] + s;
        assert(all.drop_first() =~= s);
        assert(all[0] == b);
        assert(escape(all) == escape_byte(b) + escape(s));
        assert(bytes.subrange(0, n + m) =~= bytes.subrange(0, n) + rest.subrange(0, m));
        assert(bytes.subrange(0, n + m) =~= escape(all) + seq![QUOTE]);
    }
}

/// The bytes of a text that are cut short, or lack the quote that closes
/// them, are found to be cut short.
pub proof fn lemma_parse_escaped_cut(s: Seq<u8>, k: int)
    requires
        0 <= k <= escape(s).len(),
    ensures
        parse_escaped((escape(s) + seq![QUOTE]).take(k)) is Truncated,
    decreases s.len(),
{
    let full = escape(s) + seq![QUOTE];
    let part = full.take(k);
    if k > 0 {
        let unit = escape_byte(s[0]);
        let tail = escape(s.drop_first()) + seq![QUOTE];
        assert(full =~= unit + tail);
        lemma_parse_unit_of_escaped(s[0], Seq::empty());
        assert(part[0] == unit[0]);
        if k < unit.len() {
            assert(part =~= unit.take(k));
            lemma_parse_unit_cut(s[0], k);
        } else {
            let rest = tail.take(k - unit.len());
            assert(part =~= unit + rest);
            lemma_parse_unit_of_escaped(s[0], rest);
            assert(part.skip(unit.len() as int) =~= rest);
            lemma_parse_escaped_cut(s.drop_first(), k - unit.len());
        }
    }
}

/// A text decodes to itself in front of any other bytes.
pub proof fn lemma_parse_text_of_encoded(text: Seq<char>, rest: Seq<u8>)
    ensures
        parse_text(quoted(text) + rest) == (Parsed::Item {
            value: text,
            len: quoted(text).len() as int,
        }),
{
    broadcast use {encode_utf8_valid_utf8, encode_utf8_decode_utf8};

    let body = encode_utf8(text);
    let bytes = quoted(text) + rest;
    assert(bytes[0] == QUOTE);
    assert(bytes.skip(1) =~= escape(body) + seq![QUOTE] + rest);
    lemma_parse_escaped_of_escaped(body, rest);
}

/// A text that was found is the encoding of that text.
pub proof fn lemma_parsed_text_is_encoded(bytes: Seq<u8>)
    requires
        parse_text(bytes) is Item,
    ensures
        2 <= parse_text(bytes)->len <= bytes.len(),
        bytes.subrange(0, parse_text(bytes)->len) == quoted(parse_text(bytes)->value),
{
    broadcast use decode_utf8_encode_utf8;

    let rest = bytes.skip(1);
    lemma_parsed_escaped_is_escaped(rest);
    let raw = parse_escaped(rest)->value;
    let n = parse_escaped(rest)->len;
    assert(encode_utf8(decode_utf8(raw)) == raw);
    assert(bytes.subrange(0, 1 + n) =~= seq![QUOTE] + rest.subrange(0, n));
    assert(bytes.subrange(0, 1 + n) =~= quoted(decode_utf8(raw)));
}

/// A text that is cut short is found to be cut short.
pub proof fn lemma_parse_text_cut(text: Seq<char>, k: int)
    requires
        0 <= k < quoted(text).len(),
    ensures
        parse_text(quoted(text).take(k)) is Truncated,
{
    let body = encode_utf8(text);
    let part = quoted(text).take(k);
    if k > 0 {
        assert(part[0] == QUOTE);
        assert(part.skip(1) =~= (escape(body) + seq![QUOTE]).take(k - 1));
        lemma_parse_escaped_cut(body, k - 1);
    }
}

/// What follows the head of a record that drops a key decodes to that
/// record in front of any other bytes.
proof fn lemma_remove_body_of_encoded(key: Seq<char>, rest: Seq<u8>)
    ensures
        parse_remove_body(remove_body_bytes(key) + rest) == (Parsed::Item {
            value: CommandView::Remove { key },
            len: remove_body_bytes(key).len() as int,
        }),
{
    let bytes = remove_body_bytes(key) + rest;
    let tail = record_end() + rest;
    assert(bytes =~= quoted(key) + tail);
    lemma_parse_text_of_encoded(key, tail);
    assert(bytes.skip(quoted(key).len() as int) =~= tail);
    lemma_literal_found(record_end(), rest);
}

/// What follows the key of a record that binds a key decodes to that record
/// in front of any other bytes.
proof fn lemma_put_tail_of_encoded(key: Seq<char>, value: Seq<char>, rest: Seq<u8>)
    ensures
        parse_put_tail(key, put_tail_bytes(value) + rest) == (Parsed::Item {
            value: CommandView::Put { key, value },
            len: put_tail_bytes(value).len() as int,
        }),
{
    let bytes = put_tail_bytes(value) + rest;
    let text = quoted(value) + (record_end() + rest);
    assert(bytes =~= value_head() + text);
    lemma_literal_found(value_head(), text);
    assert(bytes.skip(value_head().len() as int) =~= text);
    lemma_parse_text_of_encoded(value, record_end() + rest);
    assert(bytes.skip((value_head().len() + quoted(value).len()) as int) =~= record_end() + rest);
    lemma_literal_found(record_end(), rest);
}

/// Each command decodes to itself in front of any other bytes: the encoding
/// is self-delimiting and loses nothing.
pub proof fn lemma_parse_record_of_encoded(cmd: CommandView, rest: Seq<u8>)
    ensures
        parse_record(record_bytes(cmd) + rest) == (Parsed::Item {
            value: cmd,
            len: record_bytes(cmd).len() as int,
        }),
        record_bytes(cmd).len() > 0,
{
    reveal(parse_record);
    let bytes = record_bytes(cmd) + rest;
    match cmd {
        CommandView::Put { key, value } => {
            let tail = put_tail_bytes(value) + rest;
            let body = quoted(key) + tail;
            assert(bytes =~= set_head() + body);
            lemma_literal_found(set_head(), body);
            assert(bytes.skip(set_head().len() as int) =~= body);
            lemma_parse_text_of_encoded(key, tail);
            assert(body.skip(quoted(key).len() as int) =~= tail);
            lemma_put_tail_of_encoded(key, value, rest);
        },
        CommandView::Remove { key } => {
            let body = remove_body_bytes(key) + rest;
            assert(bytes =~= remove_head() + body);
            assert(bytes.take(set_head().len() as int)[2] == remove_head()[2]);
            lemma_literal_found(remove_head(), body);
            assert(bytes.skip(remove_head().len() as int) =~= body);
            lemma_remove_body_of_encoded(key, rest);
        },
    }
}

/// What was found after the head of a record that drops a key is the
/// encoding of what follows that head.
proof fn lemma_parsed_remove_body_is_encoded(bytes: Seq<u8>)
    requires
        parse_remove_body(bytes) is Item,
    ensures
        parse_remove_body(bytes)->value is Remove,
        0 < parse_remove_body(bytes)->len <= bytes.len(),
        bytes.subrange(0, parse_remove_body(bytes)->len) == remove_body_bytes(
            parse_remove_body(bytes)->value->Remove_key,
        ),
{
    lemma_parsed_text_is_encoded(bytes);
    let key_len = parse_text(bytes)->len;
    let tail = bytes.skip(key_len);
    let n = record_end().len() as int;
    assert(bytes.subrange(0, key_len + n) =~= bytes.subrange(0, key_len) + tail.take(n));
}

/// What was found after the key of a record that binds a key is the
/// encoding of what follows that key.
proof fn lemma_parsed_put_tail_is_encoded(key: Seq<char>, bytes: Seq<u8>)
    requires
        parse_put_tail(key, bytes) is Item,
    ensures
        parse_put_tail(key, bytes)->value is Put,
        parse_put_tail(key, bytes)->value->Put_key == key,
        0 < parse_put_tail(key, bytes)->len <= bytes.len(),
        bytes.subrange(0, parse_put_tail(key, bytes)->len) == put_tail_bytes(
            parse_put_tail(key, bytes)->value->Put_value,
        ),
{
    let head = value_head().len() as int;
    let text = bytes.skip(head);
    lemma_parsed_text_is_encoded(text);
    let value_len = parse_text(text)->len;
    let tail = bytes.skip(head + value_len);
    let n = record_end().len() as int;
    assert(bytes.subrange(0, head + value_len + n) =~= bytes.take(head) + (text.subrange(
        0,
        value_len,
    ) + tail.take(n)));
}

/// What was found after the head of a record that binds a key is the
/// encoding of what follows that head.
proof fn lemma_parsed_put_body_is_encoded(bytes: Seq<u8>)
    requires
        parse_put_body(bytes) is Item,
    ensures
        parse_put_body(bytes)->value is Put,
        0 < parse_put_body(bytes)->len <= bytes.len(),
        bytes.subrange(0, parse_put_body(bytes)->len) == quoted(
            parse_put_body(bytes)->value->Put_key,
        ) + put_tail_bytes(parse_put_body(bytes)->value->Put_value),
{
    lemma_parsed_text_is_encoded(bytes);
    let key = parse_text(bytes)->value;
    let key_len = parse_text(bytes)->len;
    let tail = bytes.skip(key_len);
    lemma_parsed_put_tail_is_encoded(key, tail);
    let tail_len = parse_put_tail(key, tail)->len;
    assert(bytes.subrange(0, key_len + tail_len) =~= bytes.subrange(0, key_len) + tail.subrange(
        0,
        tail_len,
    ));
}

/// A record that was found after the head `head`, in bytes that start with
/// this head, takes the head and what was found after it.
proof fn lemma_head_and_body(bytes: Seq<u8>, head: Seq<u8>, body_len: int)
    requires
        parse_literal(bytes, head) is Item,
        0 <= body_len <= bytes.len() - head.len(),
    ensures
        bytes.subrange(0, head.len() + body_len) == head + bytes.skip(head.len() as int).subrange(
            0,
            body_len,
        ),
{
    let n = head.len() as int;
    assert(bytes.subrange(0, n + body_len) =~= bytes.take(n) + bytes.skip(n).subrange(
        0,
        body_len,
    ));
}

/// A record that was found is the encoding of its command: no two byte
/// strings decode to the same record.
pub proof fn lemma_parsed_record_is_encoded(bytes: Seq<u8>)
    requires
        parse_record(bytes) is Item,
    ensures
        0 < parse_record(bytes)->len <= bytes.len(),
        bytes.subrange(0, parse_record(bytes)->len) == record_bytes(
            parse_record(bytes)->value,
        ),
{
    reveal(parse_record);
    if parse_literal(bytes, set_head()) is Item {
        let body = bytes.skip(set_head().len() as int);
        lemma_parsed_put_body_is_encoded(body);
        lemma_head_and_body(bytes, set_head(), parse_put_body(body)->len);
    } else {
        let body = bytes.skip(remove_head().len() as int);
        lemma_parsed_remove_body_is_encoded(body);
        lemma_head_and_body(bytes, remove_head(), parse_remove_body(body)->len);
    }
}

/// Bytes that follow a record do not change what is found.
pub proof fn lemma_parse_record_ignores_rest(bytes: Seq<u8>, rest: Seq<u8>)
    requires
        parse_record(bytes) is Item,
    ensures
        parse_record(bytes + rest) == parse_record(bytes),
{
    lemma_parsed_record_is_encoded(bytes);
    let cmd = parse_record(bytes)->value;
    let len = parse_record(bytes)->len;
    let tail = bytes.subrange(len, bytes.len() as int) + rest;
    assert(bytes + rest =~= record_bytes(cmd) + tail);
    lemma_parse_record_of_encoded(cmd, tail);
    let alone = bytes.subrange(len, bytes.len() as int);
    assert(bytes =~= record_bytes(cmd) + alone);
    lemma_parse_record_of_encoded(cmd, alone);
}

/// A record is found in its own bytes alone as it is found in front of
/// others.
pub proof fn lemma_parse_record_exact(bytes: Seq<u8>)
    requires
        parse_record(bytes) is Item,
    ensures
        parse_record(bytes.subrange(0, parse_record(bytes)->len)) == parse_record(bytes),
{
    lemma_parsed_record_is_encoded(bytes);
    let cmd = parse_record(bytes)->value;
    let len = parse_record(bytes)->len;
    assert(record_bytes(cmd) + Seq::<u8>::empty() =~= record_bytes(cmd));
    lemma_parse_record_of_encoded(cmd, Seq::empty());
    let alone = bytes.subrange(len, bytes.len() as int);
    assert(bytes =~= record_bytes(cmd) + alone);
    lemma_parse_record_of_encoded(cmd, alone);
}

/// What follows the head of a record that drops a key, cut short, is found
/// to be cut short.
proof fn lemma_remove_body_cut(key: Seq<char>, k: int)
    requires
        0 <= k < remove_body_bytes(key).len(),
    ensures
        parse_remove_body(remove_body_bytes(key).take(k)) is Truncated,
{
    let text = quoted(key);
    let part = remove_body_bytes(key).take(k);
    if k < text.len() {
        assert(part =~= text.take(k));
        lemma_parse_text_cut(key, k);
    } else {
        let rest = record_end().take(k - text.len());
        assert(part =~= text + rest);
        lemma_parse_text_of_encoded(key, rest);
        assert(part.skip(text.len() as int) =~= rest);
        lemma_literal_cut(record_end(), k - text.len());
    }
}

/// What follows the key of a record that binds a key, cut short, is found
/// to be cut short.
proof fn lemma_put_tail_cut(key: Seq<char>, value: Seq<char>, k: int)
    requires
        0 <= k < put_tail_bytes(value).len(),
    ensures
        parse_put_tail(key, put_tail_bytes(value).take(k)) is Truncated,
{
    let head = value_head();
    let text = quoted(value);
    let part = put_tail_bytes(value).take(k);
    if k < head.len() {
        assert(part =~= head.take(k));
        lemma_literal_cut(head, k);
    } else {
        let after_head = (text + record_end()).take(k - head.len());
        assert(part =~= head + after_head);
        lemma_literal_found(head, after_head);
        assert(part.skip(head.len() as int) =~= after_head);
        if k - head.len() < text.len() {
            assert(after_head =~= text.take(k - head.len()));
            lemma_parse_text_cut(value, k - head.len());
        } else {
            let rest = record_end().take(k - head.len() - text.len());
            assert(after_head =~= text + rest);
            lemma_parse_text_of_encoded(value, rest);
            assert(part.skip((head.len() + text.len()) as int) =~= rest);
            lemma_literal_cut(record_end(), k - head.len() - text.len());
        }
    }
}

/// A record that is cut short is found to be cut short: no part of a record
/// is taken for a record, or for bytes that are none.
pub proof fn lemma_parse_record_cut(cmd: CommandView, k: int)
    requires
        0 <= k < record_bytes(cmd).len(),
    ensures
        parse_record(record_bytes(cmd).take(k)) is Truncated,
{
    reveal(parse_record);
    let part = record_bytes(cmd).take(k);
    match cmd {
        CommandView::Put { key, value } => {
            let head = set_head();
            let text = quoted(key);
            if k < head.len() {
                assert(part =~= head.take(k));
                lemma_literal_cut(head, k);
            } else {
                let body = (text + put_tail_bytes(value)).take(k - head.len());
                assert(part =~= head + body);
                lemma_literal_found(head, body);
                assert(part.skip(head.len() as int) =~= body);
                if k - head.len() < text.len() {
                    assert(body =~= text.take(k - head.len()));
                    lemma_parse_text_cut(key, k - head.len());
                } else {
                    let tail = put_tail_bytes(value).take(k - head.len() - text.len());
                    assert(body =~= text + tail);
                    lemma_parse_text_of_encoded(key, tail);
                    assert(body.skip(text.len() as int) =~= tail);
                    lemma_put_tail_cut(key, value, k - head.len() - text.len());
                }
            }
        },
        CommandView::Remove { key } => {
            let head = remove_head();
            if k < head.len() {
                assert(part =~= head.take(k));
                lemma_literal_cut(head, k);
                if k > 2 {
                    assert(part[2] != set_head()[2]);
                    if k >= set_head().len() {
                        assert(part.take(set_head().len() as int)[2] == part[2]);
                    } else {
                        assert(set_head().take(k)[2] == set_head()[2]);
                    }
                } else {
                    assert(part =~= set_head().take(k));
                }
            } else {
                let body = remove_body_bytes(key).take(k - head.len());
                assert(part =~= head + body);
                assert(part.take(set_head().len() as int)[2] == head[2]);
                lemma_literal_found(head, body);
                assert(part.skip(head.len() as int) =~= body);
                lemma_remove_body_cut(key, k - head.len());
            }
        },
    }
}

/// Converts bytes to the text they encode, if they are UTF-8.
///
/// Calls `String::from_utf8`, which accepts exactly the valid UTF-8 byte
/// strings and returns a string made of the bytes it was given.
#[verifier::external_body]
pub(crate) fn text_from_utf8(bytes: Vec<u8>) -> (text: Option<String>)
    ensures
        text is Some <==> valid_utf8(bytes@),
        text is Some ==> encode_utf8(text->0@) == bytes@,
{
    String::from_utf8(bytes).ok()
}

fn push_set_head(out: &mut Vec<u8>)
    ensures
        final(out)@ == old(out)@ + set_head(),
{
    out.push(0x7b);
    out.push(0x22);
    out.push(0x53);
    out.push(0x65);
    out.push(0x74);
    out.push(0x22);
    out.push(0x3a);
    out.push(0x7b);
    out.push(0x22);
    out.push(0x6b);
    out.push(0x65);
    out.push(0x79);
    out.push(0x22);
    out.push(0x3a);
    assert(out@ =~= old(out)@ + set_head());
}

fn push_remove_head(out: &mut Vec<u8>)
    ensures
        final(out)@ == old(out)@ + remove_head(),
{
    out.push(0x7b);
    out.push(0x22);
    out.push(0x52);
    out.push(0x65);
    out.push(0x6d);
    out.push(0x6f);
    out.push(0x76);
    out.push(0x65);
    out.push(0x22);
    out.push(0x3a);
    out.push(0x7b);
    out.push(0x22);
    out.push(0x6b);
    out.push(0x65);
    out.push(0x79);
    out.push(0x22);
    out.push(0x3a);
    assert(out@ =~= old(out)@ + remove_head());
}

fn push_value_head(out: &mut Vec<u8>)
    ensures
        final(out)@ == old(out)@ + value_head(),
{
    out.push(0x2c);
    out.push(0x22);
    out.push(0x76);
    out.push(0x61);
    out.push(0x6c);
    out.push(0x75);
    out.push(0x65);
    out.push(0x22);
    out.push(0x3a);
    assert(out@ =~= old(out)@ + value_head());
}

fn push_record_end(out: &mut Vec<u8>)
    ensures
        final(out)@ == old(out)@ + record_end(),
{
    out.push(0x7d);
    out.push(0x7d);
    assert(out@ =~= old(out)@ + record_end());
}

fn hex_digit_of(n: u8) -> (c: u8)
    requires
        n < 16,
    ensures
        c == hex_digit(n as int),
{
    if n < 10 {
        0x30 + n
    } else {
        0x57 + n
    }
}

fn push_escaped(out: &mut Vec<u8>, b: u8)
    ensures
        final(out)@ == old(out)@ + escape_byte(b),
{
    if b == QUOTE || b == BACKSLASH {
        out.push(BACKSLASH);
        out.push(b);
    } else if b == 0x08 {
        out.push(BACKSLASH);
        out.push(0x62);
    } else if b == 0x09 {
        out.push(BACKSLASH);
        out.push(0x74);
    } else if b == 0x0a {
        out.push(BACKSLASH);
        out.push(0x6e);
    } else if b == 0x0c {
        out.push(BACKSLASH);
        out.push(0x66);
    } else if b == 0x0d {
        out.push(BACKSLASH);
        out.push(0x72);
    } else if b < 0x20 {
        out.push(BACKSLASH);
        out.push(0x75);
        out.push(0x30);
        out.push(0x30);
        out.push(hex_digit_of(b / 16));
        out.push(hex_digit_of(b % 16));
    } else {
        out.push(b);
    }
    assert(out@ =~= old(out)@ + escape_byte(b));
}

fn encode_text(out: &mut Vec<u8>, text: &str)
    ensures
        final(out)@ == old(out)@ + quoted(text@),
{
    let body = text.as_bytes();
    out.push(QUOTE);
    let ghost start = out@;
    let mut i: usize = 0;
    assert(body@.skip(0) =~= body@);
    assert(out@ + escape(body@) =~= start + escape(body@));
    while i < body.len()
        invariant
            i <= body@.len(),
            out@ + escape(body@.skip(i as int)) == start + escape(body@),
        decreases body@.len() - i,
    {
        let ghost before = out@;
        push_escaped(out, body[i]);
        proof {
            let rest = body@.skip(i as int);
            assert(rest.drop_first() =~= body@.skip(i + 1));
            assert(rest[0] == body@[i as int]);
            assert(before + (escape_byte(rest[0]) + escape(rest.drop_first())) =~= out@ + escape(
                body@.skip(i + 1),
            ));
        }
        i += 1;
    }
    assert(out@ =~= start + escape(body@));
    out.push(QUOTE);
    assert(out@ =~= old(out)@ + quoted(text@));
}

/// Encodes a command as one record.
pub fn encode_record(cmd: &Command) -> (bytes: Vec<u8>)
    ensures
        bytes@ == record_bytes(cmd@),
{
    let mut out: Vec<u8> = Vec::new();
    match cmd {
        Command::Put { key, value } => {
            push_set_head(&mut out);
            encode_text(&mut out, key.as_str());
            push_value_head(&mut out);
            encode_text(&mut out, value.as_str());
            push_record_end(&mut out);
        },
        Command::Remove { key } => {
            push_remove_head(&mut out);
            encode_text(&mut out, key.as_str());
            push_record_end(&mut out);
        },
    }
    assert(out@ =~= record_bytes(cmd@));
    out
}

/// What [`decode_literal`] found.
enum Matched {
    Whole,
    Truncated,
    Corrupt,
}

impl Matched {
    spec fn parsed(self, len: int) -> Parsed<()> {
        match self {
            Matched::Whole => Parsed::Item { value: (), len },
            Matched::Truncated => Parsed::Truncated,
            Matched::Corrupt => Parsed::Corrupt,
        }
    }
}

fn decode_literal(bytes: &[u8], start: usize, lit: &Vec<u8>) -> (found: Matched)
    requires
        start <= bytes@.len(),
    ensures
        found.parsed(lit@.len() as int) == parse_literal(bytes@.skip(start as int), lit@),
        found is Whole ==> start + lit@.len() <= bytes@.len(),
{
    let ghost rest = bytes@.skip(start as int);
    let left = bytes.len() - start;
    let mut i: usize = 0;
    while i < lit.len()
        invariant
            i <= lit@.len(),
            i <= left,
            left == bytes@.len() - start,
            bytes@.len() <= usize::MAX,
            rest == bytes@.skip(start as int),
            forall|j: int| 0 <= j < i ==> rest[j] == lit@[j],
        decreases lit@.len() - i,
    {
        if i >= left {
            assert(rest =~= lit@.take(rest.len() as int));
            return Matched::Truncated;
        }
        if bytes[start + i] != lit[i] {
            proof {
                assert(rest[i as int] != lit@[i as int]);
                if rest.len() >= lit@.len() {
                    assert(rest.take(lit@.len() as int)[i as int] == rest[i as int]);
                } else {
                    assert(lit@.take(rest.len() as int)[i as int] == lit@[i as int]);
                }
            }
            return Matched::Corrupt;
        }
        i += 1;
    }
    assert(rest.take(lit@.len() as int) =~= lit@);
    Matched::Whole
}

/// What [`decode_unit`] found.
enum DecodedUnit {
    Byte { value: u8, len: usize },
    Truncated,
    Corrupt,
}

impl DecodedUnit {
    spec fn parsed(self) -> Parsed<u8> {
        match self {
            DecodedUnit::Byte { value, len } => Parsed::Item { value, len: len as int },
            DecodedUnit::Truncated => Parsed::Truncated,
            DecodedUnit::Corrupt => Parsed::Corrupt,
        }
    }
}

fn hex_value_of(c: u8) -> (n: Option<u8>)
    ensures
        match n {
            Some(n) => hex_value(c) == n,
            None => hex_value(c) == -1,
        },
{
    if 0x30 <= c && c <= 0x39 {
        Some(c - 0x30)
    } else if 0x61 <= c && c <= 0x66 {
        Some(c - 0x57)
    } else {
        None
    }
}

fn decode_unit(bytes: &[u8], pos: usize) -> (found: DecodedUnit)
    requires
        pos < bytes@.len(),
        bytes@[pos as int] != QUOTE,
    ensures
        found.parsed() == parse_unit(bytes@.skip(pos as int)),
        found matches DecodedUnit::Byte { len, .. } ==> 0 < len && pos + len <= bytes@.len(),
{
    let ghost rest = bytes@.skip(pos as int);
    let left = bytes.len() - pos;
    let first = bytes[pos];
    assert(rest[0] == first);
    if first != BACKSLASH {
        if first < 0x20 {
            return DecodedUnit::Corrupt;
        }
        return DecodedUnit::Byte { value: first, len: 1 };
    }
    if left < 2 {
        return DecodedUnit::Truncated;
    }
    let second = bytes[pos + 1];
    assert(rest[1] == second);
    if second == QUOTE || second == BACKSLASH {
        DecodedUnit::Byte { value: second, len: 2 }
    } else if second == 0x62 {
        DecodedUnit::Byte { value: 0x08, len: 2 }
    } else if second == 0x74 {
        DecodedUnit::Byte { value: 0x09, len: 2 }
    } else if second == 0x6e {
        DecodedUnit::Byte { value: 0x0a, len: 2 }
    } else if second == 0x66 {
        DecodedUnit::Byte { value: 0x0c, len: 2 }
    } else if second == 0x72 {
        DecodedUnit::Byte { value: 0x0d, len: 2 }
    } else if second == 0x75 {
        if left < 6 {
            return DecodedUnit::Truncated;
        }
        assert(rest[2] == bytes@[pos + 2] && rest[3] == bytes@[pos + 3]);
        assert(rest[4] == bytes@[pos + 4] && rest[5] == bytes@[pos + 5]);
        if bytes[pos + 2] != 0x30 || bytes[pos + 3] != 0x30 {
            return DecodedUnit::Corrupt;
        }
        match (hex_value_of(bytes[pos + 4]), hex_value_of(bytes[pos + 5])) {
            (Some(high), Some(low)) => {
                if high > 1 {
                    return DecodedUnit::Corrupt;
                }
                let value: u8 = high * 16 + low;
                if value == 0x08 || value == 0x09 || value == 0x0a || value == 0x0c || value
                    == 0x0d {
                    return DecodedUnit::Corrupt;
                }
                DecodedUnit::Byte { value, len: 6 }
            },
            _ => DecodedUnit::Corrupt,
        }
    } else {
        DecodedUnit::Corrupt
    }
}

/// What [`decode_text`] found.
enum DecodedText {
    Text { text: String, len: usize },
    Truncated,
    Corrupt,
}

impl DecodedText {
    spec fn parsed(self) -> Parsed<Seq<char>> {
        match self {
            DecodedText::Text { text, len } => Parsed::Item { value: text@, len: len as int },
            DecodedText::Truncated => Parsed::Truncated,
            DecodedText::Corrupt => Parsed::Corrupt,
        }
    }
}

fn decode_text(bytes: &[u8], start: usize) -> (found: DecodedText)
    requires
        start <= bytes@.len(),
    ensures
        found.parsed() == parse_text(bytes@.skip(start as int)),
        found matches DecodedText::Text { len, .. } ==> start + len <= bytes@.len(),
{
    let ghost whole = bytes@.skip(start as int);
    if start >= bytes.len() {
        return DecodedText::Truncated;
    }
    assert(whole[0] == bytes@[start as int]);
    if bytes[start] != QUOTE {
        return DecodedText::Corrupt;
    }
    let ghost inner = bytes@.skip(start + 1);
    assert(whole.skip(1) =~= inner);
    let mut raw: Vec<u8> = Vec::new();
    let mut pos: usize = start + 1;
    assert(raw@ + Seq::<u8>::empty() =~= Seq::<u8>::empty());
    assert(joined(raw@, 0, parse_escaped(inner)) == parse_escaped(inner)) by {
        match parse_escaped(inner) {
            Parsed::Item { value, len } => {
                assert(raw@ + value =~= value);
            },
            _ => {},
        }
    }
    loop
        invariant
            start < pos <= bytes@.len(),
            whole == bytes@.skip(start as int),
            whole.len() > 0,
            whole[0] == QUOTE,
            whole.skip(1) == inner,
            inner == bytes@.skip(start + 1),
            parse_escaped(inner) == joined(
                raw@,
                pos - start - 1,
                parse_escaped(bytes@.skip(pos as int)),
            ),
        decreases bytes@.len() - pos,
    {
        let ghost here = bytes@.skip(pos as int);
        if pos >= bytes.len() {
            return DecodedText::Truncated;
        }
        assert(here[0] == bytes@[pos as int]);
        if bytes[pos] == QUOTE {
            assert(raw@ + Seq::<u8>::empty() =~= raw@);
            let len = pos + 1 - start;
            let ghost unescaped = raw@;
            return match text_from_utf8(raw) {
                Some(text) => {
                    proof {
                        encode_utf8_decode_utf8(text@);
                    }
                    DecodedText::Text { text, len }
                },
                None => DecodedText::Corrupt,
            };
        }
        match decode_unit(bytes, pos) {
            DecodedUnit::Byte { value, len } => {
                proof {
                    let next = here.skip(len as int);
                    assert(next =~= bytes@.skip(pos + len));
                    match parse_escaped(next) {
                        Parsed::Item { value: more, len: _ } => {
                            assert(raw@.push(value) + more =~= raw@ + (seq![value] + more));
                        },
                        _ => {},
                    }
                }
                raw.push(value);
                pos = pos + len;
            },
            DecodedUnit::Truncated => {
                return DecodedText::Truncated;
            },
            DecodedUnit::Corrupt => {
                return DecodedText::Corrupt;
            },
        }
    }
}

fn decode_end(bytes: &[u8], start: usize) -> (found: Matched)
    requires
        start <= bytes@.len(),
    ensures
        found.parsed(record_end().len() as int) == parse_literal(
            bytes@.skip(start as int),
            record_end(),
        ),
        found is Whole ==> start + record_end().len() <= bytes@.len(),
{
    let mut lit: Vec<u8> = Vec::new();
    push_record_end(&mut lit);
    assert(lit@ =~= record_end());
    decode_literal(bytes, start, &lit)
}

fn decode_remove_body(bytes: &[u8], start: usize) -> (found: Decoded)
    requires
        start <= bytes@.len(),
    ensures
        found@ == after(start as int, parse_remove_body(bytes@.skip(start as int))),
{
    let ghost body = bytes@.skip(start as int);
    let total = bytes.len();
    match decode_text(bytes, start) {
        DecodedText::Text { text: key, len: key_len } => {
            assert(body.skip(key_len as int) =~= bytes@.skip(start + key_len));
            match decode_end(bytes, start + key_len) {
                Matched::Whole => Decoded::Record {
                    cmd: Command::Remove { key },
                    len: start + key_len + 2,
                },
                Matched::Truncated => Decoded::Truncated,
                Matched::Corrupt => Decoded::Corrupt,
            }
        },
        DecodedText::Truncated => Decoded::Truncated,
        DecodedText::Corrupt => Decoded::Corrupt,
    }
}

fn decode_put_body(bytes: &[u8], start: usize) -> (found: Decoded)
    requires
        start <= bytes@.len(),
    ensures
        found@ == after(start as int, parse_put_body(bytes@.skip(start as int))),
{
    let ghost body = bytes@.skip(start as int);
    let total = bytes.len();
    match decode_text(bytes, start) {
        DecodedText::Text { text: key, len: key_len } => {
            let ghost tail = body.skip(key_len as int);
            assert(tail =~= bytes@.skip(start + key_len));
            let mut lit: Vec<u8> = Vec::new();
            push_value_head(&mut lit);
            assert(lit@ =~= value_head());
            match decode_literal(bytes, start + key_len, &lit) {
                Matched::Whole => {
                    let at = start + key_len + 9;
                    assert(tail.skip(9) =~= bytes@.skip(at as int));
                    match decode_text(bytes, at) {
                        DecodedText::Text { text: value, len: value_len } => {
                            assert(tail.skip(9 + value_len) =~= bytes@.skip(at + value_len));
                            match decode_end(bytes, at + value_len) {
                                Matched::Whole => Decoded::Record {
                                    cmd: Command::Put { key, value },
                                    len: at + value_len + 2,
                                },
                                Matched::Truncated => Decoded::Truncated,
                                Matched::Corrupt => Decoded::Corrupt,
                            }
                        },
                        DecodedText::Truncated => Decoded::Truncated,
                        DecodedText::Corrupt => Decoded::Corrupt,
                    }
                },
                Matched::Truncated => Decoded::Truncated,
                Matched::Corrupt => Decoded::Corrupt,
            }
        },
        DecodedText::Truncated => Decoded::Truncated,
        DecodedText::Corrupt => Decoded::Corrupt,
    }
}

/// Decodes the record at the start of `bytes`.
pub fn decode_record(bytes: &[u8]) -> (found: Decoded)
    ensures
        found@ == parse_record(bytes@),
{
    proof {
        reveal(parse_record);
    }
    assert(bytes@.skip(0) =~= bytes@);
    let mut lit: Vec<u8> = Vec::new();
    push_set_head(&mut lit);
    assert(lit@ =~= set_head());
    match decode_literal(bytes, 0, &lit) {
        Matched::Whole => decode_put_body(bytes, 14),
        Matched::Truncated => Decoded::Truncated,
        Matched::Corrupt => {
            let mut lit: Vec<u8> = Vec::new();
            push_remove_head(&mut lit);
            assert(lit@ =~= remove_head());
            match decode_literal(bytes, 0, &lit) {
                Matched::Whole => decode_remove_body(bytes, 17),
                Matched::Truncated => Decoded::Truncated,
                Matched::Corrupt => Decoded::Corrupt,
            }
        },
    }
}

} // verus!
