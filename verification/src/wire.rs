//! The format as mathematics: what text a value is written as, and what
//! each reader makes of a text.

use crate::decimal::{decimal, digit_run, digits_value, is_digit, signed_decimal};
use crate::error::Error;
use crate::text::{split_at_byte, utf8_len};
use crate::value::{Kind, SpecValue, Variant};
use vstd::prelude::*;

verus! {

/// What reading one token from the front of a text comes to: the value
/// read and the text that is left behind it, or the error.
pub type Parsed<T> = std::result::Result<(T, Seq<char>), Error>;

/// The token of a boolean: `T` or `F`.
pub open spec fn encode_bool(b: bool) -> Seq<char> {
    if b {
        seq!['T']
    } else {
        seq!['F']
    }
}

/// The token of the null value.
pub open spec fn encode_null() -> Seq<char> {
    seq!['N']
}

/// A number token around the text of the number: `i`, the text, `e`.
pub open spec fn encode_number(text: Seq<char>) -> Seq<char> {
    seq!['i'] + text + seq!['e']
}

/// The token of an integer.
pub open spec fn encode_int(v: int) -> Seq<char> {
    encode_number(signed_decimal(v))
}

/// The token of a string: its length in bytes of UTF-8, `:`, the string.
pub open spec fn encode_str(s: Seq<char>) -> Seq<char> {
    decimal(utf8_len(s)) + seq![':'] + s
}

/// The token of a value: a list is `l`, its items and `e`; a dictionary is
/// `d`, its keys and values in turn and `e`.
pub open spec fn encode_value(v: SpecValue) -> Seq<char>
    decreases v,
{
    match v {
        SpecValue::Null => encode_null(),
        SpecValue::Bool(b) => encode_bool(b),
        SpecValue::Unsigned(n) => encode_int(n as int),
        SpecValue::Signed(n) => encode_int(n as int),
        SpecValue::Str(s) => encode_str(s),
        SpecValue::List(items) => seq!['l'] + encode_items(items) + seq!['e'],
        SpecValue::Dict(pairs) => seq!['d'] + encode_pairs(pairs) + seq!['e'],
    }
}

/// The tokens of the items of a list, one after the other.
pub open spec fn encode_items(items: Seq<SpecValue>) -> Seq<char>
    decreases items,
{
    if items.len() == 0 {
        Seq::empty()
    } else {
        encode_items(items.drop_last()) + encode_value(items.last())
    }
}

/// The tokens of the keys and values of a dictionary, each key before its
/// value.
pub open spec fn encode_pairs(pairs: Seq<(SpecValue, SpecValue)>) -> Seq<char>
    decreases pairs,
{
    if pairs.len() == 0 {
        Seq::empty()
    } else {
        encode_pairs(pairs.drop_last()) + encode_value(pairs.last().0) + encode_value(
            pairs.last().1,
        )
    }
}

/// One more item at the end of a list is one more token at the end.
pub proof fn lemma_encode_items_push(items: Seq<SpecValue>, item: SpecValue)
    ensures
        encode_items(items.push(item)) == encode_items(items) + encode_value(item),
{
    assert(items.push(item).drop_last() =~= items);
}

/// One more pair at the end of a dictionary is two more tokens at the end.
pub proof fn lemma_encode_pairs_push(
    pairs: Seq<(SpecValue, SpecValue)>,
    pair: (SpecValue, SpecValue),
)
    ensures
        encode_pairs(pairs.push(pair)) == encode_pairs(pairs) + encode_value(pair.0)
            + encode_value(pair.1),
{
    assert(pairs.push(pair).drop_last() =~= pairs);
}

/// The form of an enum variant that carries one value: a dictionary of the
/// variant's name and the value.
pub open spec fn encode_newtype_variant(name: Seq<char>, value: Seq<char>) -> Seq<char> {
    seq!['d'] + encode_str(name) + value + seq!['e']
}

/// True when `rest` is what is left of `s` once some of its first
/// characters, or none, were taken.
pub open spec fn leaves(s: Seq<char>, rest: Seq<char>) -> bool {
    rest.len() <= s.len() && rest == s.skip(s.len() - rest.len())
}

/// True when `rest` is what is left of `s` once at least one character was
/// taken from its front.
pub open spec fn moved_on(s: Seq<char>, rest: Seq<char>) -> bool {
    leaves(s, rest) && rest.len() < s.len()
}

/// Reads one given character: `missing` where the text has ended, `other`
/// where another character stands there.
pub open spec fn decode_mark(s: Seq<char>, mark: char, missing: Error, other: Error) -> Parsed<()> {
    if s.len() == 0 {
        Err(missing)
    } else if s[0] == mark {
        Ok(((), s.skip(1)))
    } else {
        Err(other)
    }
}

/// Reads a boolean token.
pub open spec fn decode_bool(s: Seq<char>) -> Parsed<bool> {
    if s.len() > 0 && s[0] == 'T' {
        Ok((true, s.skip(1)))
    } else if s.len() > 0 && s[0] == 'F' {
        Ok((false, s.skip(1)))
    } else {
        Err(Error::ExpectedBoolean)
    }
}

/// Reads the null token.
pub open spec fn decode_unit(s: Seq<char>) -> Parsed<()> {
    if s.len() > 0 && s[0] == 'N' {
        Ok(((), s.skip(1)))
    } else {
        Err(Error::ExpectedNull)
    }
}

/// Reads the digits of a number and the `e` behind them: the number that
/// the leading run of digits denotes, where the run holds at least one
/// digit and `e` follows it.
pub open spec fn decode_digits(s: Seq<char>) -> Option<(nat, Seq<char>)> {
    let k = digit_run(s) as int;
    if 0 < k < s.len() && s[k] == 'e' {
        Some((digits_value(s.take(k)), s.skip(k + 1)))
    } else {
        None
    }
}

/// Reads an integer token that holds no sign, for an integer type that
/// reaches up to `max`.
pub open spec fn decode_unsigned(s: Seq<char>, max: nat) -> Parsed<nat> {
    if s.len() == 0 {
        Err(Error::Eof)
    } else if s[0] != 'i' {
        Err(Error::ExpectedInteger)
    } else {
        match decode_digits(s.skip(1)) {
            Some((n, rest)) => if n <= max {
                Ok((n, rest))
            } else {
                Err(Error::ExpectedInteger)
            },
            None => Err(Error::ExpectedInteger),
        }
    }
}

/// Reads an integer token, with or without `-` behind the `i`, for an
/// integer type that reaches from `min` to `max`.
pub open spec fn decode_signed(s: Seq<char>, min: int, max: int) -> Parsed<int> {
    if s.len() == 0 {
        Err(Error::Eof)
    } else if s[0] != 'i' {
        Err(Error::ExpectedInteger)
    } else if s.len() == 1 {
        Err(Error::Eof)
    } else {
        let negative = s[1] == '-';
        let digits = if negative {
            s.skip(2)
        } else {
            s.skip(1)
        };
        match decode_digits(digits) {
            Some((n, rest)) => {
                let v = if negative {
                    -(n as int)
                } else {
                    n as int
                };
                if min <= v <= max {
                    Ok((v, rest))
                } else {
                    Err(Error::ExpectedInteger)
                }
            },
            None => Err(Error::ExpectedInteger),
        }
    }
}

/// Reads a string token: the leading run of digits is the length in bytes,
/// `:` follows it, and the string is the text of that many bytes behind
/// the `:`.
pub open spec fn decode_string(s: Seq<char>) -> Parsed<Seq<char>> {
    if s.len() == 0 {
        Err(Error::Eof)
    } else if !is_digit(s[0]) {
        Err(Error::ExpectedString)
    } else {
        let k = digit_run(s) as int;
        let n = digits_value(s.take(k));
        if !(k < s.len() && s[k] == ':') {
            Err(Error::ExpectedString)
        } else if n > utf8_len(s.skip(k + 1)) {
            Err(Error::Eof)
        } else {
            match split_at_byte(s.skip(k + 1), n) {
                Some(parts) => Ok(parts),
                None => Err(Error::ExpectedString),
            }
        }
    }
}

/// Reads a string token that holds one byte, as a character.
pub open spec fn decode_char(s: Seq<char>) -> Parsed<char> {
    match decode_string(s) {
        Ok((text, rest)) => if utf8_len(text) == 1 {
            Ok((text[0], rest))
        } else {
            Err(Error::Syntax)
        },
        Err(e) => Err(e),
    }
}

/// The kind of value that the front of a text announces. One character
/// decides, but for an integer, where the character behind the `i` tells a
/// signed token from an unsigned one.
pub open spec fn decode_kind(s: Seq<char>) -> std::result::Result<Kind, Error> {
    if s.len() == 0 {
        Err(Error::Eof)
    } else if s[0] == 'N' {
        Ok(Kind::Null)
    } else if s[0] == 'T' || s[0] == 'F' {
        Ok(Kind::Boolean)
    } else if is_digit(s[0]) {
        Ok(Kind::String)
    } else if s[0] == 'i' {
        if s.len() == 1 {
            Err(Error::Eof)
        } else if s[1] == '-' {
            Ok(Kind::Signed)
        } else if is_digit(s[1]) {
            Ok(Kind::Unsigned)
        } else {
            Err(Error::Syntax)
        }
    } else if s[0] == 'l' {
        Ok(Kind::List)
    } else if s[0] == 'd' {
        Ok(Kind::Dictionary)
    } else {
        Err(Error::Syntax)
    }
}

/// Reads one value of the kind that the front of the text announces, as
/// the reader of that kind reads it.
pub open spec fn decode_value(s: Seq<char>) -> Parsed<SpecValue>
    decreases s.len(), 0int,
{
    match decode_kind(s) {
        Err(e) => Err(e),
        Ok(Kind::Null) => match decode_unit(s) {
            Ok((_, rest)) => Ok((SpecValue::Null, rest)),
            Err(e) => Err(e),
        },
        Ok(Kind::Boolean) => match decode_bool(s) {
            Ok((b, rest)) => Ok((SpecValue::Bool(b), rest)),
            Err(e) => Err(e),
        },
        Ok(Kind::String) => match decode_string(s) {
            Ok((text, rest)) => Ok((SpecValue::Str(text), rest)),
            Err(e) => Err(e),
        },
        Ok(Kind::Signed) => match decode_signed(s, i64::MIN as int, i64::MAX as int) {
            Ok((v, rest)) => Ok((SpecValue::Signed(v as i64), rest)),
            Err(e) => Err(e),
        },
        Ok(Kind::Unsigned) => match decode_unsigned(s, u64::MAX as nat) {
            Ok((n, rest)) => Ok((SpecValue::Unsigned(n as u64), rest)),
            Err(e) => Err(e),
        },
        Ok(Kind::List) => match decode_items(s.skip(1)) {
            Ok((items, rest)) => Ok((SpecValue::List(items), rest)),
            Err(e) => Err(e),
        },
        Ok(Kind::Dictionary) => match decode_pairs(s.skip(1)) {
            Ok((pairs, rest)) => Ok((SpecValue::Dict(pairs), rest)),
            Err(e) => Err(e),
        },
    }
}

/// Reads the items of a list up to the `e` that closes it, and the `e`. A
/// text that ends before the `e` has left the list open.
///
/// Every item takes at least one character (`laws::lemma_decode_value_moves`),
/// so the test on the lengths, by which this definition is seen to end,
/// never fails.
pub open spec fn decode_items(s: Seq<char>) -> Parsed<Seq<SpecValue>>
    decreases s.len(), 1int,
{
    if s.len() == 0 {
        Err(Error::ExpectedListEnd)
    } else if s[0] == 'e' {
        Ok((Seq::empty(), s.skip(1)))
    } else {
        match decode_value(s) {
            Ok((item, rest)) => if rest.len() < s.len() {
                match decode_items(rest) {
                    Ok((items, after)) => Ok((seq![item] + items, after)),
                    Err(e) => Err(e),
                }
            } else {
                Err(Error::Syntax)
            },
            Err(e) => Err(e),
        }
    }
}

/// Reads the keys and values of a dictionary up to the `e` that closes it,
/// and the `e`. A text that ends where a key could stand has left the
/// dictionary open; one that ends where a value has to stand has ended too
/// early. The tests on the lengths never fail, as in `decode_items`.
pub open spec fn decode_pairs(s: Seq<char>) -> Parsed<Seq<(SpecValue, SpecValue)>>
    decreases s.len(), 1int,
{
    if s.len() == 0 {
        Err(Error::ExpectedDictionaryEnd)
    } else if s[0] == 'e' {
        Ok((Seq::empty(), s.skip(1)))
    } else {
        match decode_value(s) {
            Ok((key, after_key)) => if after_key.len() < s.len() {
                match decode_value(after_key) {
                    Ok((value, rest)) => if rest.len() < s.len() {
                        match decode_pairs(rest) {
                            Ok((pairs, after)) => Ok((seq![(key, value)] + pairs, after)),
                            Err(e) => Err(e),
                        }
                    } else {
                        Err(Error::Syntax)
                    },
                    Err(e) => Err(e),
                }
            } else {
                Err(Error::Syntax)
            },
            Err(e) => Err(e),
        }
    }
}

/// Reads a list: `l`, the items, `e`.
pub open spec fn decode_list(s: Seq<char>) -> Parsed<Seq<SpecValue>> {
    match decode_mark(s, 'l', Error::Eof, Error::ExpectedList) {
        Ok((_, rest)) => decode_items(rest),
        Err(e) => Err(e),
    }
}

/// Reads a dictionary: `d`, the keys and values, `e`.
pub open spec fn decode_dict(s: Seq<char>) -> Parsed<Seq<(SpecValue, SpecValue)>> {
    match decode_mark(s, 'd', Error::Eof, Error::ExpectedDictionary) {
        Ok((_, rest)) => decode_pairs(rest),
        Err(e) => Err(e),
    }
}

/// Reads the next item of a list, or the next key of a dictionary, if
/// there is one: none where `e` stands, which stays where it is, and the
/// error `end` where the text has ended.
pub open spec fn decode_next(s: Seq<char>, end: Error) -> Parsed<Option<SpecValue>> {
    if s.len() == 0 {
        Err(end)
    } else if s[0] == 'e' {
        Ok((None, s))
    } else {
        match decode_value(s) {
            Ok((v, rest)) => Ok((Some(v), rest)),
            Err(e) => Err(e),
        }
    }
}

/// Reads a value that may be missing: the null token is the missing
/// value, and anything else is read as a value.
pub open spec fn decode_option(s: Seq<char>) -> Parsed<Option<SpecValue>> {
    if s.len() > 0 && s[0] == 'N' {
        Ok((None, s.skip(1)))
    } else {
        match decode_value(s) {
            Ok((v, rest)) => Ok((Some(v), rest)),
            Err(e) => Err(e),
        }
    }
}

/// Reads what a variant of the given form carries behind its name. The
/// form without a value cannot be read.
pub open spec fn decode_payload(s: Seq<char>, form: Variant) -> Parsed<SpecValue> {
    match form {
        Variant::Unit => Err(Error::ExpectedString),
        Variant::Newtype => decode_value(s),
        Variant::Tuple => match decode_list(s) {
            Ok((items, rest)) => Ok((SpecValue::List(items), rest)),
            Err(e) => Err(e),
        },
        Variant::Struct => match decode_dict(s) {
            Ok((pairs, rest)) => Ok((SpecValue::Dict(pairs), rest)),
            Err(e) => Err(e),
        },
    }
}

/// Reads an enum variant of the given form: `d`, the variant's name as a
/// string token, what the variant carries, and `e`.
pub open spec fn decode_enum(s: Seq<char>, form: Variant) -> Parsed<(Seq<char>, SpecValue)> {
    match decode_mark(s, 'd', Error::Eof, Error::ExpectedDictionary) {
        Err(e) => Err(e),
        Ok((_, body)) => match decode_string(body) {
            Err(e) => Err(e),
            Ok((name, after_name)) => match decode_payload(after_name, form) {
                Err(e) => Err(e),
                Ok((payload, after_payload)) => match decode_mark(
                    after_payload,
                    'e',
                    Error::ExpectedDictionaryEnd,
                    Error::ExpectedDictionaryEnd,
                ) {
                    Err(e) => Err(e),
                    Ok((_, rest)) => Ok(((name, payload), rest)),
                },
            },
        },
    }
}

/// Tells whether a list or a dictionary goes on: it does unless `e`
/// stands next. A text that has ended has left it open, which is the
/// error `end`.
pub open spec fn decode_more(s: Seq<char>, end: Error) -> std::result::Result<bool, Error> {
    if s.len() == 0 {
        Err(end)
    } else {
        Ok(s[0] != 'e')
    }
}

/// The tokens of the items of a list, one after the other, each as
/// `write` writes it.
pub open spec fn encode_items_with<T>(items: Seq<T>, write: spec_fn(T) -> Seq<char>) -> Seq<char>
    decreases items.len(),
{
    if items.len() == 0 {
        Seq::empty()
    } else {
        encode_items_with(items.drop_last(), write) + write(items.last())
    }
}

/// The token of a list whose items are written by `write`: `l`, the
/// items, `e`.
pub open spec fn encode_list_with<T>(
    items: Seq<T>,
    write: spec_fn(T) -> Seq<char>,
) -> Seq<char> {
    seq!['l'] + encode_items_with(items, write) + seq!['e']
}

/// Reads the items of a list one by one, each with `read`, up to the `e`
/// that closes the list, and the `e`: as long as the list goes on an item
/// is read, and then the list is closed.
///
/// A reader that takes nothing would never come to the end of the list;
/// such a step is cut off here.
pub open spec fn decode_items_with<T>(
    s: Seq<char>,
    read: spec_fn(Seq<char>) -> Parsed<T>,
) -> Parsed<Seq<T>>
    decreases s.len(),
{
    match decode_more(s, Error::ExpectedListEnd) {
        Err(e) => Err(e),
        Ok(false) => match decode_mark(s, 'e', Error::ExpectedListEnd, Error::ExpectedListEnd) {
            Ok((_, rest)) => Ok((Seq::empty(), rest)),
            Err(e) => Err(e),
        },
        Ok(true) => match read(s) {
            Ok((item, rest)) => if rest.len() < s.len() {
                match decode_items_with(rest, read) {
                    Ok((items, after)) => Ok((seq![item] + items, after)),
                    Err(e) => Err(e),
                }
            } else {
                Err(Error::Syntax)
            },
            Err(e) => Err(e),
        },
    }
}

/// Reads a list whose items are read by `read`: the list is opened, its
/// items are read one by one, and it is closed.
pub open spec fn decode_list_with<T>(
    s: Seq<char>,
    read: spec_fn(Seq<char>) -> Parsed<T>,
) -> Parsed<Seq<T>> {
    match decode_mark(s, 'l', Error::Eof, Error::ExpectedList) {
        Ok((_, rest)) => decode_items_with(rest, read),
        Err(e) => Err(e),
    }
}

/// The tokens of the pairs of a dictionary, each key as `write_key`
/// writes it and before its value, each value as `write_value` writes it.
pub open spec fn encode_pairs_with<K, V>(
    pairs: Seq<(K, V)>,
    write_key: spec_fn(K) -> Seq<char>,
    write_value: spec_fn(V) -> Seq<char>,
) -> Seq<char>
    decreases pairs.len(),
{
    if pairs.len() == 0 {
        Seq::empty()
    } else {
        encode_pairs_with(pairs.drop_last(), write_key, write_value) + write_key(pairs.last().0)
            + write_value(pairs.last().1)
    }
}

/// The token of a dictionary whose keys and values are written by
/// `write_key` and `write_value`: `d`, the pairs, `e`.
pub open spec fn encode_dict_with<K, V>(
    pairs: Seq<(K, V)>,
    write_key: spec_fn(K) -> Seq<char>,
    write_value: spec_fn(V) -> Seq<char>,
) -> Seq<char> {
    seq!['d'] + encode_pairs_with(pairs, write_key, write_value) + seq!['e']
}

/// Reads the pairs of a dictionary one by one, each key with `read_key`
/// and each value with `read_value`, up to the `e` that closes the
/// dictionary, and the `e`. Steps that take nothing are cut off as in
/// `decode_items_with`.
pub open spec fn decode_pairs_with<K, V>(
    s: Seq<char>,
    read_key: spec_fn(Seq<char>) -> Parsed<K>,
    read_value: spec_fn(Seq<char>) -> Parsed<V>,
) -> Parsed<Seq<(K, V)>>
    decreases s.len(),
{
    match decode_more(s, Error::ExpectedDictionaryEnd) {
        Err(e) => Err(e),
        Ok(false) => match decode_mark(
            s,
            'e',
            Error::ExpectedDictionaryEnd,
            Error::ExpectedDictionaryEnd,
        ) {
            Ok((_, rest)) => Ok((Seq::empty(), rest)),
            Err(e) => Err(e),
        },
        Ok(true) => match read_key(s) {
            Ok((key, after_key)) => match read_value(after_key) {
                Ok((value, rest)) => if rest.len() < s.len() {
                    match decode_pairs_with(rest, read_key, read_value) {
                        Ok((pairs, after)) => Ok((seq![(key, value)] + pairs, after)),
                        Err(e) => Err(e),
                    }
                } else {
                    Err(Error::Syntax)
                },
                Err(e) => Err(e),
            },
            Err(e) => Err(e),
        },
    }
}

/// Reads a dictionary whose keys and values are read by `read_key` and
/// `read_value`: the dictionary is opened, its pairs are read one by one,
/// and it is closed.
pub open spec fn decode_dict_with<K, V>(
    s: Seq<char>,
    read_key: spec_fn(Seq<char>) -> Parsed<K>,
    read_value: spec_fn(Seq<char>) -> Parsed<V>,
) -> Parsed<Seq<(K, V)>> {
    match decode_mark(s, 'd', Error::Eof, Error::ExpectedDictionary) {
        Ok((_, rest)) => decode_pairs_with(rest, read_key, read_value),
        Err(e) => Err(e),
    }
}

/// The writer of booleans.
pub open spec fn bool_writer() -> spec_fn(bool) -> Seq<char> {
    |b: bool| encode_bool(b)
}

/// The reader of booleans.
pub open spec fn bool_reader() -> spec_fn(Seq<char>) -> Parsed<bool> {
    |s: Seq<char>| decode_bool(s)
}

/// The writer of integers.
pub open spec fn int_writer() -> spec_fn(int) -> Seq<char> {
    |v: int| encode_int(v)
}

/// The reader of integers without a sign, for a type that reaches up to
/// `max`.
pub open spec fn unsigned_reader(max: nat) -> spec_fn(Seq<char>) -> Parsed<int> {
    |s: Seq<char>|
        match decode_unsigned(s, max) {
            Ok((n, rest)) => Ok((n as int, rest)),
            Err(e) => Err(e),
        }
}

/// The reader of integers for a type that reaches from `min` to `max`.
pub open spec fn signed_reader(min: int, max: int) -> spec_fn(Seq<char>) -> Parsed<int> {
    |s: Seq<char>| decode_signed(s, min, max)
}

/// The writer of strings.
pub open spec fn string_writer() -> spec_fn(Seq<char>) -> Seq<char> {
    |text: Seq<char>| encode_str(text)
}

/// The reader of strings.
pub open spec fn string_reader() -> spec_fn(Seq<char>) -> Parsed<Seq<char>> {
    |s: Seq<char>| decode_string(s)
}

/// The writer of values of whatever kind.
pub open spec fn value_writer() -> spec_fn(SpecValue) -> Seq<char> {
    |v: SpecValue| encode_value(v)
}

/// The reader of values of whatever kind stands next.
pub open spec fn value_reader() -> spec_fn(Seq<char>) -> Parsed<SpecValue> {
    |s: Seq<char>| decode_value(s)
}

/// The writer of lists whose items are written by `write`.
pub open spec fn list_writer<T>(write: spec_fn(T) -> Seq<char>) -> spec_fn(Seq<T>) -> Seq<char> {
    |items: Seq<T>| encode_list_with(items, write)
}

/// The reader of lists whose items are read by `read`.
pub open spec fn list_reader<T>(read: spec_fn(Seq<char>) -> Parsed<T>) -> spec_fn(
    Seq<char>,
) -> Parsed<Seq<T>> {
    |s: Seq<char>| decode_list_with(s, read)
}

/// The writer of dictionaries whose keys and values are written by
/// `write_key` and `write_value`.
pub open spec fn dict_writer<K, V>(
    write_key: spec_fn(K) -> Seq<char>,
    write_value: spec_fn(V) -> Seq<char>,
) -> spec_fn(Seq<(K, V)>) -> Seq<char> {
    |pairs: Seq<(K, V)>| encode_dict_with(pairs, write_key, write_value)
}

/// The reader of dictionaries whose keys and values are read by
/// `read_key` and `read_value`.
pub open spec fn dict_reader<K, V>(
    read_key: spec_fn(Seq<char>) -> Parsed<K>,
    read_value: spec_fn(Seq<char>) -> Parsed<V>,
) -> spec_fn(Seq<char>) -> Parsed<Seq<(K, V)>> {
    |s: Seq<char>| decode_dict_with(s, read_key, read_value)
}

/// Reads a whole text as one value: nothing may follow the value.
pub open spec fn decode_text(s: Seq<char>) -> std::result::Result<SpecValue, Error> {
    match decode_value(s) {
        Ok((v, rest)) => if rest.len() == 0 {
            Ok(v)
        } else {
            Err(Error::TrailingCharacters)
        },
        Err(e) => Err(e),
    }
}

} // verus!
