//! What is proved of the format: that reading moves forward and stays
//! inside the token, that what is written is read back, that the two ways
//! to read agree, and where writing and reading do not meet.

use crate::decimal::{
    decimal, digit_run, digits_value, is_digit, lemma_decimal, lemma_digit_run,
    lemma_digit_run_is, lemma_digit_run_of_prefix,
};
use crate::error::Error;
use crate::text::{
    lemma_split_at_byte_concat, lemma_split_at_byte_parts, lemma_utf8_concat, split_at_byte,
    utf8_len,
};
use crate::value::{Kind, SpecValue, Variant};
use crate::wire::{
    decode_bool, decode_char, decode_dict, decode_digits, decode_enum, decode_items, decode_kind,
    decode_list, decode_option, decode_pairs, decode_payload, decode_signed, decode_string,
    decode_text, decode_unit, decode_unsigned, decode_value, encode_bool, encode_int,
    encode_items, encode_newtype_variant, encode_null, encode_pairs, encode_str, encode_value,
    leaves, moved_on, Parsed,
};
use crate::wire::{
    bool_reader, bool_writer, decode_dict_with, decode_items_with, decode_list_with,
    decode_pairs_with, dict_reader, dict_writer,
    encode_dict_with, encode_items_with, encode_list_with, encode_pairs_with, int_writer,
    list_reader, list_writer, signed_reader, string_reader, string_writer, unsigned_reader,
    value_reader, value_writer,
};
use vstd::prelude::*;

verus! {

/// What is left of what was left is left of the whole.
pub broadcast proof fn lemma_leaves_twice(s: Seq<char>, mid: Seq<char>, rest: Seq<char>)
    requires
        #[trigger] leaves(s, mid),
        #[trigger] leaves(mid, rest),
    ensures
        leaves(s, rest),
{
    assert(s.skip(s.len() - mid.len()).skip(mid.len() - rest.len()) =~= s.skip(
        s.len() - rest.len(),
    ));
}

/// A text of which nothing was taken is left whole.
pub broadcast proof fn lemma_leaves_all(s: Seq<char>)
    ensures
        #[trigger] leaves(s, s),
{
    assert(s.skip(0) =~= s);
}

/// A text with some of its first characters taken, or none, is left of the
/// text.
pub broadcast proof fn lemma_leaves_skip(s: Seq<char>, k: int)
    requires
        0 <= k <= s.len(),
    ensures
        leaves(s, #[trigger] s.skip(k)),
{
}

/// What is left behind what was left is left of the whole.
proof fn lemma_moved_on_twice(s: Seq<char>, mid: Seq<char>, rest: Seq<char>)
    requires
        moved_on(s, mid) || mid == s,
        moved_on(mid, rest),
    ensures
        moved_on(s, rest),
{
    if mid != s {
        lemma_leaves_twice(s, mid, rest);
    }
}

/// One character less is left behind the first character.
proof fn lemma_moved_on_skip(s: Seq<char>, k: int)
    requires
        0 < k <= s.len(),
    ensures
        moved_on(s, s.skip(k)),
{
}

/// The digits of a number and its `e` are at least one character.
proof fn lemma_decode_digits_moves(s: Seq<char>)
    ensures
        decode_digits(s) matches Some((_, rest)) ==> moved_on(s, rest),
{
    lemma_digit_run(s);
}

/// A string token is at least two characters, and what is left behind it
/// is the rest of the same text.
pub proof fn lemma_decode_string_moves(s: Seq<char>)
    ensures
        decode_string(s) matches Ok((_, rest)) ==> moved_on(s, rest),
{
    if let Ok((text, rest)) = decode_string(s) {
        lemma_digit_run(s);
        let k = digit_run(s) as int;
        let body = s.skip(k + 1);
        let n = digits_value(s.take(k));
        lemma_split_at_byte_parts(body, n);
        assert(split_at_byte(body, n) == Some((text, rest)));
        assert(rest =~= body.skip(text.len() as int));
        assert(body.skip(text.len() as int) =~= s.skip(k + 1 + text.len()));
    }
}

/// Every value that is read takes at least one character, and what is left
/// behind it is the rest of the same text: reading never goes back and
/// never stands still.
pub proof fn lemma_decode_value_moves(s: Seq<char>)
    ensures
        decode_value(s) matches Ok((_, rest)) ==> moved_on(s, rest),
    decreases s.len(), 0int,
{
    match decode_kind(s) {
        Err(_) => {},
        Ok(Kind::Null) => {},
        Ok(Kind::Boolean) => {},
        Ok(Kind::String) => {
            lemma_decode_string_moves(s);
        },
        Ok(Kind::Signed) => {
            lemma_decode_digits_moves(s.skip(2));
            if let Some((_, rest)) = decode_digits(s.skip(2)) {
                lemma_moved_on_skip(s, 2);
                lemma_moved_on_twice(s, s.skip(2), rest);
            }
        },
        Ok(Kind::Unsigned) => {
            lemma_decode_digits_moves(s.skip(1));
            if let Some((_, rest)) = decode_digits(s.skip(1)) {
                lemma_moved_on_skip(s, 1);
                lemma_moved_on_twice(s, s.skip(1), rest);
            }
        },
        Ok(Kind::List) => {
            lemma_decode_items_moves(s.skip(1));
            if let Ok((_, rest)) = decode_items(s.skip(1)) {
                lemma_moved_on_skip(s, 1);
                lemma_moved_on_twice(s, s.skip(1), rest);
            }
        },
        Ok(Kind::Dictionary) => {
            lemma_decode_pairs_moves(s.skip(1));
            if let Ok((_, rest)) = decode_pairs(s.skip(1)) {
                lemma_moved_on_skip(s, 1);
                lemma_moved_on_twice(s, s.skip(1), rest);
            }
        },
    }
}

/// The items of a list and its `e` take at least one character.
pub proof fn lemma_decode_items_moves(s: Seq<char>)
    ensures
        decode_items(s) matches Ok((_, rest)) ==> moved_on(s, rest),
    decreases s.len(), 1int,
{
    if s.len() > 0 && s[0] != 'e' {
        lemma_decode_value_moves(s);
        if let Ok((_, mid)) = decode_value(s) {
            lemma_decode_items_moves(mid);
            if let Ok((_, rest)) = decode_items(mid) {
                lemma_moved_on_twice(s, mid, rest);
            }
        }
    }
}

/// The keys and values of a dictionary and its `e` take at least one
/// character.
pub proof fn lemma_decode_pairs_moves(s: Seq<char>)
    ensures
        decode_pairs(s) matches Ok((_, rest)) ==> moved_on(s, rest),
    decreases s.len(), 1int,
{
    if s.len() > 0 && s[0] != 'e' {
        lemma_decode_value_moves(s);
        if let Ok((_, after_key)) = decode_value(s) {
            lemma_decode_value_moves(after_key);
            if let Ok((_, mid)) = decode_value(after_key) {
                lemma_moved_on_twice(s, after_key, mid);
                lemma_decode_pairs_moves(mid);
                if let Ok((_, rest)) = decode_pairs(mid) {
                    lemma_moved_on_twice(s, mid, rest);
                }
            }
        }
    }
}

/// Every reader of one kind of token takes at least one character where
/// it succeeds, and leaves the rest of the same text.
pub proof fn lemma_readers_move(s: Seq<char>, min: int, max: int, form: Variant)
    ensures
        decode_bool(s) matches Ok((_, rest)) ==> moved_on(s, rest),
        decode_unit(s) matches Ok((_, rest)) ==> moved_on(s, rest),
        decode_unsigned(s, max as nat) matches Ok((_, rest)) ==> moved_on(s, rest),
        decode_signed(s, min, max) matches Ok((_, rest)) ==> moved_on(s, rest),
        decode_string(s) matches Ok((_, rest)) ==> moved_on(s, rest),
        decode_char(s) matches Ok((_, rest)) ==> moved_on(s, rest),
        decode_option(s) matches Ok((_, rest)) ==> moved_on(s, rest),
        decode_list(s) matches Ok((_, rest)) ==> moved_on(s, rest),
        decode_dict(s) matches Ok((_, rest)) ==> moved_on(s, rest),
        decode_enum(s, form) matches Ok((_, rest)) ==> moved_on(s, rest),
{
    lemma_decode_string_moves(s);
    lemma_decode_value_moves(s);
    if s.len() > 0 {
        let body = s.skip(1);
        lemma_moved_on_skip(s, 1);
        lemma_decode_digits_moves(body);
        if let Some((_, rest)) = decode_digits(body) {
            lemma_moved_on_twice(s, body, rest);
        }
        lemma_decode_items_moves(body);
        if let Ok((_, rest)) = decode_items(body) {
            lemma_moved_on_twice(s, body, rest);
        }
        lemma_decode_pairs_moves(body);
        if let Ok((_, rest)) = decode_pairs(body) {
            lemma_moved_on_twice(s, body, rest);
        }
        if s.len() > 1 {
            let digits = s.skip(2);
            lemma_moved_on_skip(s, 2);
            lemma_decode_digits_moves(digits);
            if let Some((_, rest)) = decode_digits(digits) {
                lemma_moved_on_twice(s, digits, rest);
            }
        }
        if let Ok((_, rest)) = decode_enum(s, form) {
            lemma_decode_string_moves(body);
            let after_name = decode_string(body)->Ok_0.1;
            lemma_moved_on_twice(s, body, after_name);
            lemma_decode_payload_moves(after_name, form);
            let after_payload = decode_payload(after_name, form)->Ok_0.1;
            lemma_moved_on_twice(s, after_name, after_payload);
            lemma_moved_on_skip(after_payload, 1);
            lemma_moved_on_twice(s, after_payload, rest);
        }
    }
}

/// What a variant carries takes at least one character.
proof fn lemma_decode_payload_moves(s: Seq<char>, form: Variant)
    ensures
        decode_payload(s, form) matches Ok((_, rest)) ==> moved_on(s, rest),
{
    lemma_decode_value_moves(s);
    if s.len() > 0 {
        let body = s.skip(1);
        lemma_moved_on_skip(s, 1);
        lemma_decode_items_moves(body);
        if let Ok((_, rest)) = decode_items(body) {
            lemma_moved_on_twice(s, body, rest);
        }
        lemma_decode_pairs_moves(body);
        if let Ok((_, rest)) = decode_pairs(body) {
            lemma_moved_on_twice(s, body, rest);
        }
    }
}

/// The digits of a number and its `e` are read alike whatever follows the
/// `e`.
proof fn lemma_decode_digits_local(s: Seq<char>, tail: Seq<char>)
    ensures
        decode_digits(s) matches Some((n, rest)) ==> decode_digits(
            s.take(s.len() - rest.len()) + tail,
        ) == Some((n, tail)),
{
    if let Some((n, rest)) = decode_digits(s) {
        lemma_digit_run(s);
        let k = digit_run(s) as int;
        let t = s.take(k + 1) + tail;
        assert(s.take(s.len() - rest.len()) =~= s.take(k + 1));
        assert forall|i: int| 0 <= i < k implies is_digit(#[trigger] t[i]) by {
            assert(t[i] == s.take(k)[i]);
        }
        lemma_digit_run_is(t, k);
        assert(t.take(k) =~= s.take(k));
        assert(t.skip(k + 1) =~= tail);
    }
}

/// A string token is read alike whatever follows its last byte.
proof fn lemma_decode_string_local(s: Seq<char>, tail: Seq<char>)
    ensures
        decode_string(s) matches Ok((text, rest)) ==> decode_string(
            s.take(s.len() - rest.len()) + tail,
        ) == Parsed::<Seq<char>>::Ok((text, tail)),
{
    if let Ok((text, rest)) = decode_string(s) {
        lemma_digit_run(s);
        let k = digit_run(s) as int;
        let n = digits_value(s.take(k));
        let body = s.skip(k + 1);
        lemma_split_at_byte_parts(body, n);
        assert(split_at_byte(body, n) == Some((text, rest)));
        let t = s.take(s.len() - rest.len()) + tail;
        assert(body == text + rest);
        assert(s.len() - rest.len() == k + 1 + text.len());
        assert(s.take(k + 1 + text.len()) =~= s.take(k + 1) + body.take(text.len() as int));
        assert(body.take(text.len() as int) =~= text);
        assert forall|i: int| 0 <= i < k implies is_digit(#[trigger] t[i]) by {
            assert(t[i] == s.take(k)[i]);
        }
        lemma_digit_run_is(t, k);
        assert(t.take(k) =~= s.take(k));
        assert(t.skip(k + 1) =~= text + tail);
        lemma_utf8_concat(text, tail);
        lemma_split_at_byte_concat(text, tail);
    }
}

/// Reading stays inside the token: the value that is read from the front
/// of a text is read from the characters that were taken, whatever is put
/// behind them, and what was put behind them is left. No reader looks
/// past the length that a string declares, nor past the `e` that closes a
/// number, a list or a dictionary.
pub proof fn lemma_decode_value_local(s: Seq<char>, tail: Seq<char>)
    ensures
        decode_value(s) matches Ok((v, rest)) ==> decode_value(s.take(s.len() - rest.len()) + tail)
            == Parsed::<SpecValue>::Ok((v, tail)),
    decreases s.len(), 0int,
{
    if let Ok((v, rest)) = decode_value(s) {
        lemma_decode_value_moves(s);
        let taken = s.len() - rest.len();
        let t = s.take(taken) + tail;
        match decode_kind(s) {
            Err(_) => {},
            Ok(Kind::Null) => {
                assert(t.skip(1) =~= tail);
            },
            Ok(Kind::Boolean) => {
                assert(t.skip(1) =~= tail);
            },
            Ok(Kind::String) => {
                lemma_decode_string_local(s, tail);
            },
            Ok(Kind::Signed) => {
                lemma_decode_digits_local(s.skip(2), tail);
                lemma_decode_digits_moves(s.skip(2));
                assert(t[1] == s[1]);
                assert(t.skip(2) =~= s.skip(2).take(s.skip(2).len() - rest.len()) + tail);
            },
            Ok(Kind::Unsigned) => {
                lemma_decode_digits_local(s.skip(1), tail);
                lemma_decode_digits_moves(s.skip(1));
                assert(t[1] == s[1]);
                assert(t.skip(1) =~= s.skip(1).take(s.skip(1).len() - rest.len()) + tail);
            },
            Ok(Kind::List) => {
                lemma_decode_items_local(s.skip(1), tail);
                lemma_decode_items_moves(s.skip(1));
                assert(t.skip(1) =~= s.skip(1).take(s.skip(1).len() - rest.len()) + tail);
            },
            Ok(Kind::Dictionary) => {
                lemma_decode_pairs_local(s.skip(1), tail);
                lemma_decode_pairs_moves(s.skip(1));
                assert(t.skip(1) =~= s.skip(1).take(s.skip(1).len() - rest.len()) + tail);
            },
        }
    }
}

/// What two readers took one after the other is what the first took and
/// then what the second took.
proof fn lemma_taken_twice(s: Seq<char>, mid: Seq<char>, rest: Seq<char>)
    requires
        moved_on(s, mid),
        moved_on(mid, rest),
    ensures
        s.take(s.len() - rest.len()) == s.take(s.len() - mid.len()) + mid.take(
            mid.len() - rest.len(),
        ),
{
    assert(s.take(s.len() - rest.len()) =~= s.take(s.len() - mid.len()) + mid.take(
        mid.len() - rest.len(),
    ));
}

/// The items of a list and its `e` are read alike whatever follows the `e`.
pub proof fn lemma_decode_items_local(s: Seq<char>, tail: Seq<char>)
    ensures
        decode_items(s) matches Ok((items, rest)) ==> decode_items(
            s.take(s.len() - rest.len()) + tail,
        ) == Parsed::<Seq<SpecValue>>::Ok((items, tail)),
    decreases s.len(), 1int,
{
    if let Ok((items, rest)) = decode_items(s) {
        let t = s.take(s.len() - rest.len()) + tail;
        if s[0] == 'e' {
            assert(t.skip(1) =~= tail);
        } else {
            lemma_decode_value_moves(s);
            let (item, mid) = decode_value(s)->Ok_0;
            lemma_decode_items_moves(mid);
            let behind = mid.take(mid.len() - rest.len()) + tail;
            let first = s.take(s.len() - mid.len());
            lemma_decode_value_local(s, behind);
            lemma_decode_items_local(mid, tail);
            lemma_taken_twice(s, mid, rest);
            assert(t =~= first + behind);
            assert(t[0] == s[0]);
            assert(decode_value(t) == Parsed::<SpecValue>::Ok((item, behind)));
            assert(behind.len() < t.len());
        }
    }
}

/// The pairs of a dictionary and its `e` are read alike whatever follows
/// the `e`.
pub proof fn lemma_decode_pairs_local(s: Seq<char>, tail: Seq<char>)
    ensures
        decode_pairs(s) matches Ok((pairs, rest)) ==> decode_pairs(
            s.take(s.len() - rest.len()) + tail,
        ) == Parsed::<Seq<(SpecValue, SpecValue)>>::Ok((pairs, tail)),
    decreases s.len(), 1int,
{
    if let Ok((pairs, rest)) = decode_pairs(s) {
        let t = s.take(s.len() - rest.len()) + tail;
        if s[0] == 'e' {
            assert(t.skip(1) =~= tail);
        } else {
            lemma_decode_value_moves(s);
            let (key, after_key) = decode_value(s)->Ok_0;
            lemma_decode_value_moves(after_key);
            let (value, mid) = decode_value(after_key)->Ok_0;
            lemma_moved_on_twice(s, after_key, mid);
            lemma_decode_pairs_moves(mid);
            let behind = mid.take(mid.len() - rest.len()) + tail;
            let behind_key = after_key.take(after_key.len() - mid.len()) + behind;
            let first = s.take(s.len() - after_key.len());
            assert(t == first + behind_key) by {
                lemma_taken_twice(after_key, mid, rest);
                lemma_moved_on_twice(after_key, mid, rest);
                lemma_taken_twice(s, after_key, rest);
                assert(t =~= first + behind_key);
            }
            assert(decode_value(t) == Parsed::<SpecValue>::Ok((key, behind_key))) by {
                lemma_decode_value_local(s, behind_key);
            }
            assert(decode_value(behind_key) == Parsed::<SpecValue>::Ok((value, behind))) by {
                lemma_decode_value_local(after_key, behind);
            }
            assert(decode_pairs(behind) == Parsed::<Seq<(SpecValue, SpecValue)>>::Ok(
                (decode_pairs(mid)->Ok_0.0, tail),
            )) by {
                lemma_decode_pairs_local(mid, tail);
            }
            assert(t[0] == s[0]);
            assert(behind_key.len() < t.len());
            assert(behind.len() < t.len());
        }
    }
}

/// True of the values that come back from their own text when the text is
/// read with nothing known of it: those that hold no signed integer that
/// is zero or above.
///
/// A signed integer that is not negative is written without a sign, and a
/// reader that knows nothing reads a token without a sign as unsigned: the
/// number comes back and its kind does not.
pub open spec fn reads_back(v: SpecValue) -> bool
    decreases v,
{
    match v {
        SpecValue::Null => true,
        SpecValue::Bool(_) => true,
        SpecValue::Unsigned(_) => true,
        SpecValue::Signed(n) => n < 0,
        SpecValue::Str(_) => true,
        SpecValue::List(items) => forall|i: int|
            0 <= i < items.len() ==> reads_back(#[trigger] items[i]),
        SpecValue::Dict(pairs) => forall|i: int|
            0 <= i < pairs.len() ==> reads_back((#[trigger] pairs[i]).0) && reads_back(pairs[i].1),
    }
}

/// A number's digits and the `e` behind them are read as the number,
/// whatever follows.
proof fn lemma_digits_round_trip(n: nat, rest: Seq<char>)
    ensures
        decode_digits(decimal(n) + seq!['e'] + rest) == Some((n, rest)),
{
    let s = decimal(n) + seq!['e'] + rest;
    let tail = seq!['e'] + rest;
    lemma_decimal(n);
    assert(s =~= decimal(n) + tail);
    lemma_digit_run_of_prefix(decimal(n), tail);
    assert(s.skip(decimal(n).len() as int + 1) =~= rest);
}

/// A boolean that is written and then read as a boolean is the same
/// boolean, and what followed it is left.
pub proof fn lemma_bool_round_trip(b: bool, rest: Seq<char>)
    ensures
        decode_bool(encode_bool(b) + rest) == Parsed::<bool>::Ok((b, rest)),
{
    assert((encode_bool(b) + rest).skip(1) =~= rest);
}

/// The null token that is written and then read is the null token, and
/// what followed it is left.
pub proof fn lemma_unit_round_trip(rest: Seq<char>)
    ensures
        decode_unit(encode_null() + rest) == Parsed::<()>::Ok(((), rest)),
{
    assert((encode_null() + rest).skip(1) =~= rest);
}

/// An integer from nought to `max` that is written and then read without
/// a sign, for a type that reaches up to `max`, is the same integer, and
/// what followed it is left.
pub proof fn lemma_unsigned_round_trip(n: nat, max: nat, rest: Seq<char>)
    requires
        n <= max,
    ensures
        decode_unsigned(encode_int(n as int) + rest, max) == Parsed::<nat>::Ok((n, rest)),
{
    let s = encode_int(n as int) + rest;
    lemma_digits_round_trip(n, rest);
    assert(s.skip(1) =~= decimal(n) + seq!['e'] + rest);
}

/// An integer from `min` to `max` that is written and then read for a type
/// that reaches from `min` to `max` is the same integer, and what followed
/// it is left.
pub proof fn lemma_signed_round_trip(v: int, min: int, max: int, rest: Seq<char>)
    requires
        min <= v <= max,
    ensures
        decode_signed(encode_int(v) + rest, min, max) == Parsed::<int>::Ok((v, rest)),
{
    let s = encode_int(v) + rest;
    if v < 0 {
        let n = (-v) as nat;
        lemma_digits_round_trip(n, rest);
        assert(s.skip(2) =~= decimal(n) + seq!['e'] + rest);
        assert(s[1] == '-');
    } else {
        let n = v as nat;
        lemma_digits_round_trip(n, rest);
        lemma_decimal(n);
        assert(s.skip(1) =~= decimal(n) + seq!['e'] + rest);
        assert(s[1] == decimal(n)[0]);
    }
}

/// A string that is written and then read is the same string, and what
/// followed it is left: the empty string and strings of characters that
/// take several bytes as any other.
pub proof fn lemma_string_round_trip(text: Seq<char>, rest: Seq<char>)
    ensures
        decode_string(encode_str(text) + rest) == Parsed::<Seq<char>>::Ok((text, rest)),
{
    let s = encode_str(text) + rest;
    let length = decimal(utf8_len(text));
    let tail = seq![':'] + text + rest;
    lemma_decimal(utf8_len(text));
    assert(s =~= length + tail);
    lemma_digit_run_of_prefix(length, tail);
    assert(s[0] == length[0]);
    assert(s.skip(length.len() as int + 1) =~= text + rest);
    lemma_utf8_concat(text, rest);
    lemma_split_at_byte_concat(text, rest);
}

/// The text of a value is not empty, and its first character tells the
/// kind of the value. It is never `e`.
proof fn lemma_encode_value_head(v: SpecValue)
    ensures
        encode_value(v).len() > 0,
        encode_value(v)[0] == match v {
            SpecValue::Null => 'N',
            SpecValue::Bool(b) => if b {
                'T'
            } else {
                'F'
            },
            SpecValue::Unsigned(_) => 'i',
            SpecValue::Signed(_) => 'i',
            SpecValue::Str(text) => decimal(utf8_len(text))[0],
            SpecValue::List(_) => 'l',
            SpecValue::Dict(_) => 'd',
        },
        v is Str ==> is_digit(encode_value(v)[0]),
{
    if let SpecValue::Str(text) = v {
        lemma_decimal(utf8_len(text));
    }
}

/// The tokens of a list's items are the token of the first item and the
/// tokens of the others.
proof fn lemma_encode_items_front(items: Seq<SpecValue>)
    requires
        items.len() > 0,
    ensures
        encode_items(items) == encode_value(items[0]) + encode_items(items.drop_first()),
    decreases items.len(),
{
    if items.len() == 1 {
        assert(items.drop_last() =~= Seq::<SpecValue>::empty());
        assert(items.drop_first() =~= Seq::<SpecValue>::empty());
        assert(encode_items(items) =~= encode_value(items[0]) + encode_items(items.drop_first()));
    } else {
        lemma_encode_items_front(items.drop_last());
        assert(items.drop_last().drop_first() =~= items.drop_first().drop_last());
        assert(encode_items(items) =~= encode_value(items[0]) + encode_items(items.drop_first()));
    }
}

/// The tokens of a dictionary's pairs are the tokens of the first key and
/// value and the tokens of the others.
proof fn lemma_encode_pairs_front(pairs: Seq<(SpecValue, SpecValue)>)
    requires
        pairs.len() > 0,
    ensures
        encode_pairs(pairs) == encode_value(pairs[0].0) + encode_value(pairs[0].1) + encode_pairs(
            pairs.drop_first(),
        ),
    decreases pairs.len(),
{
    if pairs.len() == 1 {
        assert(pairs.drop_last() =~= Seq::<(SpecValue, SpecValue)>::empty());
        assert(pairs.drop_first() =~= Seq::<(SpecValue, SpecValue)>::empty());
        assert(encode_pairs(pairs) =~= encode_value(pairs[0].0) + encode_value(pairs[0].1)
            + encode_pairs(pairs.drop_first()));
    } else {
        lemma_encode_pairs_front(pairs.drop_last());
        assert(pairs.drop_last().drop_first() =~= pairs.drop_first().drop_last());
        assert(encode_pairs(pairs) =~= encode_value(pairs[0].0) + encode_value(pairs[0].1)
            + encode_pairs(pairs.drop_first()));
    }
}

/// A value that is written and then read with nothing known of it is the
/// same value, and what followed it is left. This holds of the null
/// value, of booleans, of unsigned integers, of negative integers, of
/// strings, and of lists and dictionaries of such values at any depth.
pub proof fn lemma_value_round_trip(v: SpecValue, rest: Seq<char>)
    requires
        reads_back(v),
    ensures
        decode_value(encode_value(v) + rest) == Parsed::<SpecValue>::Ok((v, rest)),
    decreases v, 0int,
{
    let s = encode_value(v) + rest;
    lemma_encode_value_head(v);
    match v {
        SpecValue::Null => {
            lemma_unit_round_trip(rest);
        },
        SpecValue::Bool(b) => {
            lemma_bool_round_trip(b, rest);
        },
        SpecValue::Unsigned(n) => {
            lemma_unsigned_round_trip(n as nat, u64::MAX as nat, rest);
            lemma_decimal(n as nat);
            assert(s[1] == decimal(n as nat)[0]);
        },
        SpecValue::Signed(n) => {
            lemma_signed_round_trip(n as int, i64::MIN as int, i64::MAX as int, rest);
            assert(s[1] == '-');
        },
        SpecValue::Str(text) => {
            lemma_string_round_trip(text, rest);
        },
        SpecValue::List(items) => {
            lemma_items_round_trip(items, 0, rest);
            assert(items.skip(0) =~= items);
            assert(s.skip(1) =~= encode_items(items) + seq!['e'] + rest);
        },
        SpecValue::Dict(pairs) => {
            lemma_pairs_round_trip(pairs, 0, rest);
            assert(pairs.skip(0) =~= pairs);
            assert(s.skip(1) =~= encode_pairs(pairs) + seq!['e'] + rest);
        },
    }
}

/// The items of a list from the `k`-th on, written with the `e` that
/// closes the list and then read, are the same items.
pub proof fn lemma_items_round_trip(items: Seq<SpecValue>, k: int, rest: Seq<char>)
    requires
        0 <= k <= items.len(),
        forall|i: int| 0 <= i < items.len() ==> reads_back(#[trigger] items[i]),
    ensures
        decode_items(encode_items(items.skip(k)) + seq!['e'] + rest) == Parsed::<
            Seq<SpecValue>,
        >::Ok((items.skip(k), rest)),
    decreases items, items.len() - k,
{
    let left = items.skip(k);
    let s = encode_items(left) + seq!['e'] + rest;
    if k == items.len() {
        assert(left =~= Seq::<SpecValue>::empty());
        assert(s =~= seq!['e'] + rest);
        assert(s.skip(1) =~= rest);
    } else {
        let after = encode_items(left.drop_first()) + seq!['e'] + rest;
        lemma_encode_items_front(left);
        lemma_encode_value_head(left[0]);
        assert(s =~= encode_value(left[0]) + after);
        assert(left[0] == items[k]);
        lemma_value_round_trip(items[k], after);
        assert(left.drop_first() =~= items.skip(k + 1));
        lemma_items_round_trip(items, k + 1, rest);
        assert(seq![items[k]] + items.skip(k + 1) =~= left);
    }
}

/// The pairs of a dictionary from the `k`-th on, written with the `e` that
/// closes the dictionary and then read, are the same pairs.
pub proof fn lemma_pairs_round_trip(pairs: Seq<(SpecValue, SpecValue)>, k: int, rest: Seq<char>)
    requires
        0 <= k <= pairs.len(),
        forall|i: int|
            0 <= i < pairs.len() ==> reads_back((#[trigger] pairs[i]).0) && reads_back(pairs[i].1),
    ensures
        decode_pairs(encode_pairs(pairs.skip(k)) + seq!['e'] + rest) == Parsed::<
            Seq<(SpecValue, SpecValue)>,
        >::Ok((pairs.skip(k), rest)),
    decreases pairs, pairs.len() - k,
{
    let left = pairs.skip(k);
    let s = encode_pairs(left) + seq!['e'] + rest;
    if k == pairs.len() {
        assert(left =~= Seq::<(SpecValue, SpecValue)>::empty());
        assert(s =~= seq!['e'] + rest);
        assert(s.skip(1) =~= rest);
    } else {
        let after = encode_pairs(left.drop_first()) + seq!['e'] + rest;
        let after_key = encode_value(left[0].1) + after;
        lemma_encode_pairs_front(left);
        lemma_encode_value_head(left[0].0);
        assert(s =~= encode_value(left[0].0) + after_key);
        assert(left[0] == pairs[k]);
        lemma_value_round_trip(pairs[k].0, after_key);
        lemma_value_round_trip(pairs[k].1, after);
        lemma_encode_value_head(pairs[k].1);
        assert(left.drop_first() =~= pairs.skip(k + 1));
        lemma_pairs_round_trip(pairs, k + 1, rest);
        assert(seq![pairs[k]] + pairs.skip(k + 1) =~= left);
    }
}

/// A value that holds a signed integer that is zero or above does not come
/// back from its own text, whatever follows the text: another value is
/// read from it.
pub proof fn lemma_value_does_not_come_back(v: SpecValue, rest: Seq<char>)
    requires
        !reads_back(v),
    ensures
        !(decode_value(encode_value(v) + rest) matches Ok((read, _)) && read == v),
    decreases v, 0int,
{
    let s = encode_value(v) + rest;
    lemma_encode_value_head(v);
    match v {
        SpecValue::Signed(n) => {
            lemma_decimal(n as nat);
            assert(s[1] == decimal(n as nat)[0]);
        },
        SpecValue::List(items) => {
            let bad = choose|i: int| 0 <= i < items.len() && !reads_back(#[trigger] items[i]);
            lemma_items_do_not_come_back(items, 0, bad, rest);
            assert(items.skip(0) =~= items);
            assert(s.skip(1) =~= encode_items(items) + seq!['e'] + rest);
        },
        SpecValue::Dict(pairs) => {
            let bad = choose|i: int|
                0 <= i < pairs.len() && !(reads_back((#[trigger] pairs[i]).0) && reads_back(
                    pairs[i].1,
                ));
            lemma_pairs_do_not_come_back(pairs, 0, bad, rest);
            assert(pairs.skip(0) =~= pairs);
            assert(s.skip(1) =~= encode_pairs(pairs) + seq!['e'] + rest);
        },
        _ => {},
    }
}

/// Items from the `k`-th on, one of which does not come back from its own
/// text, do not come back from theirs.
proof fn lemma_items_do_not_come_back(
    items: Seq<SpecValue>,
    k: int,
    bad: int,
    rest: Seq<char>,
)
    requires
        0 <= k <= bad < items.len(),
        !reads_back(items[bad]),
    ensures
        !(decode_items(encode_items(items.skip(k)) + seq!['e'] + rest) matches Ok((read, _))
            && read == items.skip(k)),
    decreases items, items.len() - k,
{
    let left = items.skip(k);
    let s = encode_items(left) + seq!['e'] + rest;
    let after = encode_items(left.drop_first()) + seq!['e'] + rest;
    lemma_encode_items_front(left);
    lemma_encode_value_head(left[0]);
    assert(s =~= encode_value(left[0]) + after);
    assert(left[0] == items[k]);
    assert(left.drop_first() =~= items.skip(k + 1));
    if reads_back(items[k]) {
        lemma_value_round_trip(items[k], after);
        lemma_items_do_not_come_back(items, k + 1, bad, rest);
        if let Ok((read, _)) = decode_items(s) {
            let others = decode_items(after)->Ok_0.0;
            assert(read == seq![items[k]] + others);
            assert(read.drop_first() =~= others);
        }
    } else {
        lemma_value_does_not_come_back(items[k], after);
        if let Ok((read, _)) = decode_items(s) {
            let first = decode_value(s)->Ok_0.0;
            assert(read[0] == first);
        }
    }
}

/// Pairs from the `k`-th on, one of which holds a key or a value that does
/// not come back from its own text, do not come back from theirs.
proof fn lemma_pairs_do_not_come_back(
    pairs: Seq<(SpecValue, SpecValue)>,
    k: int,
    bad: int,
    rest: Seq<char>,
)
    requires
        0 <= k <= bad < pairs.len(),
        !(reads_back(pairs[bad].0) && reads_back(pairs[bad].1)),
    ensures
        !(decode_pairs(encode_pairs(pairs.skip(k)) + seq!['e'] + rest) matches Ok((read, _))
            && read == pairs.skip(k)),
    decreases pairs, pairs.len() - k,
{
    let left = pairs.skip(k);
    let s = encode_pairs(left) + seq!['e'] + rest;
    let after = encode_pairs(left.drop_first()) + seq!['e'] + rest;
    let after_key = encode_value(left[0].1) + after;
    lemma_encode_pairs_front(left);
    lemma_encode_value_head(left[0].0);
    lemma_encode_value_head(left[0].1);
    assert(s =~= encode_value(left[0].0) + after_key);
    assert(left[0] == pairs[k]);
    assert(left.drop_first() =~= pairs.skip(k + 1));
    if !reads_back(pairs[k].0) {
        lemma_value_does_not_come_back(pairs[k].0, after_key);
        if let Ok((read, _)) = decode_pairs(s) {
            let key = decode_value(s)->Ok_0.0;
            assert(read[0].0 == key);
        }
    } else if !reads_back(pairs[k].1) {
        lemma_value_round_trip(pairs[k].0, after_key);
        lemma_value_does_not_come_back(pairs[k].1, after);
        if let Ok((read, _)) = decode_pairs(s) {
            let value = decode_value(after_key)->Ok_0.0;
            assert(read[0].1 == value);
        }
    } else {
        lemma_value_round_trip(pairs[k].0, after_key);
        lemma_value_round_trip(pairs[k].1, after);
        lemma_pairs_do_not_come_back(pairs, k + 1, bad, rest);
        if let Ok((read, _)) = decode_pairs(s) {
            let others = decode_pairs(after)->Ok_0.0;
            assert(read == seq![pairs[k]] + others);
            assert(read.drop_first() =~= others);
        }
    }
}

/// Round trip, both ways: the values that come back from their own text,
/// read as a whole with nothing known of it, are those of which
/// `reads_back` is true, and no others.
pub proof fn lemma_text_round_trip_iff(v: SpecValue)
    ensures
        decode_text(encode_value(v)) == std::result::Result::<SpecValue, Error>::Ok(v)
            <==> reads_back(v),
{
    assert(encode_value(v) + Seq::<char>::empty() =~= encode_value(v));
    if reads_back(v) {
        lemma_value_round_trip(v, Seq::empty());
    } else {
        lemma_value_does_not_come_back(v, Seq::empty());
    }
}

/// True when `item` has a token of its own under `write` and `read`:
/// `write` gives a text that is not empty and does not begin with `e`, and
/// `read` reads the item back from that text, whatever follows it, and
/// leaves what followed.
pub open spec fn comes_back_with<T>(
    item: T,
    write: spec_fn(T) -> Seq<char>,
    read: spec_fn(Seq<char>) -> Parsed<T>,
) -> bool {
    &&& write(item).len() > 0
    &&& write(item)[0] != 'e'
    &&& forall|tail: Seq<char>| #[trigger]
        read(write(item) + tail) == Parsed::<T>::Ok((item, tail))
}

/// Round trip of the typed readers: a boolean, an integer within the range
/// of the type it is read for, and a string each have a token of their
/// own.
pub proof fn lemma_tokens_come_back(b: bool, v: int, min: int, max: int, text: Seq<char>)
    ensures
        comes_back_with(b, bool_writer(), bool_reader()),
        0 <= v <= max ==> comes_back_with(v, int_writer(), unsigned_reader(max as nat)),
        min <= v <= max ==> comes_back_with(v, int_writer(), signed_reader(min, max)),
        comes_back_with(text, string_writer(), string_reader()),
{
    assert forall|tail: Seq<char>| #[trigger]
        bool_reader()(bool_writer()(b) + tail) == Parsed::<bool>::Ok((b, tail)) by {
        lemma_bool_round_trip(b, tail);
    }
    if 0 <= v <= max {
        assert forall|tail: Seq<char>| #[trigger]
            unsigned_reader(max as nat)(int_writer()(v) + tail) == Parsed::<int>::Ok(
                (v, tail),
            ) by {
            lemma_unsigned_round_trip(v as nat, max as nat, tail);
        }
    }
    if min <= v <= max {
        assert forall|tail: Seq<char>| #[trigger]
            signed_reader(min, max)(int_writer()(v) + tail) == Parsed::<int>::Ok((v, tail)) by {
            lemma_signed_round_trip(v, min, max, tail);
        }
    }
    assert forall|tail: Seq<char>| #[trigger]
        string_reader()(string_writer()(text) + tail) == Parsed::<Seq<char>>::Ok(
            (text, tail),
        ) by {
        lemma_string_round_trip(text, tail);
    }
    lemma_decimal(utf8_len(text));
}

/// The tokens of a list's items are the token of the first item and the
/// tokens of the others.
proof fn lemma_encode_items_with_front<T>(items: Seq<T>, write: spec_fn(T) -> Seq<char>)
    requires
        items.len() > 0,
    ensures
        encode_items_with(items, write) == write(items[0]) + encode_items_with(
            items.drop_first(),
            write,
        ),
    decreases items.len(),
{
    if items.len() == 1 {
        assert(items.drop_last() =~= Seq::<T>::empty());
        assert(items.drop_first() =~= Seq::<T>::empty());
        assert(encode_items_with(items, write) =~= write(items[0]) + encode_items_with(
            items.drop_first(),
            write,
        ));
    } else {
        lemma_encode_items_with_front(items.drop_last(), write);
        assert(items.drop_last().drop_first() =~= items.drop_first().drop_last());
        assert(encode_items_with(items, write) =~= write(items[0]) + encode_items_with(
            items.drop_first(),
            write,
        ));
    }
}

/// The items of a list from the `k`-th on, written with the `e` that
/// closes the list and then read one by one, are the same items.
proof fn lemma_items_round_trip_with<T>(
    items: Seq<T>,
    k: int,
    write: spec_fn(T) -> Seq<char>,
    read: spec_fn(Seq<char>) -> Parsed<T>,
    rest: Seq<char>,
)
    requires
        0 <= k <= items.len(),
        forall|i: int| 0 <= i < items.len() ==> comes_back_with(#[trigger] items[i], write, read),
    ensures
        decode_items_with(encode_items_with(items.skip(k), write) + seq!['e'] + rest, read)
            == Parsed::<Seq<T>>::Ok((items.skip(k), rest)),
    decreases items.len() - k,
{
    let left = items.skip(k);
    let s = encode_items_with(left, write) + seq!['e'] + rest;
    if k == items.len() {
        assert(left =~= Seq::<T>::empty());
        assert(s =~= seq!['e'] + rest);
        assert(s.skip(1) =~= rest);
    } else {
        let after = encode_items_with(left.drop_first(), write) + seq!['e'] + rest;
        lemma_encode_items_with_front(left, write);
        assert(left[0] == items[k]);
        assert(comes_back_with(items[k], write, read));
        assert(s =~= write(items[k]) + after);
        assert(read(write(items[k]) + after) == Parsed::<T>::Ok((items[k], after)));
        assert(left.drop_first() =~= items.skip(k + 1));
        lemma_items_round_trip_with(items, k + 1, write, read, rest);
        assert(seq![items[k]] + items.skip(k + 1) =~= left);
    }
}

/// Round trip of a list that is read item by item: where every item has
/// a token of its own under `write` and `read`, the list that is opened,
/// written item by item and closed is read back, by opening it, reading
/// items with `read` as long as it goes on, and closing it, as the same
/// items in the same order. The list, empty or not, has then a token of
/// its own, so that lists of lists come back as well.
pub proof fn lemma_list_comes_back<T>(
    items: Seq<T>,
    write: spec_fn(T) -> Seq<char>,
    read: spec_fn(Seq<char>) -> Parsed<T>,
)
    requires
        forall|i: int| 0 <= i < items.len() ==> comes_back_with(#[trigger] items[i], write, read),
    ensures
        comes_back_with(items, list_writer(write), list_reader(read)),
{
    assert forall|tail: Seq<char>| #[trigger]
        list_reader(read)(list_writer(write)(items) + tail) == Parsed::<Seq<T>>::Ok(
            (items, tail),
        ) by {
        let s = encode_list_with(items, write) + tail;
        lemma_items_round_trip_with(items, 0, write, read, tail);
        assert(items.skip(0) =~= items);
        assert(s.skip(1) =~= encode_items_with(items, write) + seq!['e'] + tail);
    }
}

/// The tokens of a dictionary's pairs are the tokens of the first key and
/// value and the tokens of the others.
proof fn lemma_encode_pairs_with_front<K, V>(
    pairs: Seq<(K, V)>,
    write_key: spec_fn(K) -> Seq<char>,
    write_value: spec_fn(V) -> Seq<char>,
)
    requires
        pairs.len() > 0,
    ensures
        encode_pairs_with(pairs, write_key, write_value) == write_key(pairs[0].0) + write_value(
            pairs[0].1,
        ) + encode_pairs_with(pairs.drop_first(), write_key, write_value),
    decreases pairs.len(),
{
    if pairs.len() == 1 {
        assert(pairs.drop_last() =~= Seq::<(K, V)>::empty());
        assert(pairs.drop_first() =~= Seq::<(K, V)>::empty());
        assert(encode_pairs_with(pairs, write_key, write_value) =~= write_key(pairs[0].0)
            + write_value(pairs[0].1) + encode_pairs_with(
            pairs.drop_first(),
            write_key,
            write_value,
        ));
    } else {
        lemma_encode_pairs_with_front(pairs.drop_last(), write_key, write_value);
        assert(pairs.drop_last().drop_first() =~= pairs.drop_first().drop_last());
        assert(encode_pairs_with(pairs, write_key, write_value) =~= write_key(pairs[0].0)
            + write_value(pairs[0].1) + encode_pairs_with(
            pairs.drop_first(),
            write_key,
            write_value,
        ));
    }
}

/// The pairs of a dictionary from the `k`-th on, written with the `e` that
/// closes the dictionary and then read one by one, are the same pairs.
proof fn lemma_pairs_round_trip_with<K, V>(
    pairs: Seq<(K, V)>,
    k: int,
    write_key: spec_fn(K) -> Seq<char>,
    write_value: spec_fn(V) -> Seq<char>,
    read_key: spec_fn(Seq<char>) -> Parsed<K>,
    read_value: spec_fn(Seq<char>) -> Parsed<V>,
    rest: Seq<char>,
)
    requires
        0 <= k <= pairs.len(),
        forall|i: int|
            0 <= i < pairs.len() ==> comes_back_with(
                (#[trigger] pairs[i]).0,
                write_key,
                read_key,
            ) && comes_back_with(pairs[i].1, write_value, read_value),
    ensures
        decode_pairs_with(
            encode_pairs_with(pairs.skip(k), write_key, write_value) + seq!['e'] + rest,
            read_key,
            read_value,
        ) == Parsed::<Seq<(K, V)>>::Ok((pairs.skip(k), rest)),
    decreases pairs.len() - k,
{
    let left = pairs.skip(k);
    let s = encode_pairs_with(left, write_key, write_value) + seq!['e'] + rest;
    if k == pairs.len() {
        assert(left =~= Seq::<(K, V)>::empty());
        assert(s =~= seq!['e'] + rest);
        assert(s.skip(1) =~= rest);
    } else {
        let after = encode_pairs_with(left.drop_first(), write_key, write_value) + seq!['e']
            + rest;
        let after_key = write_value(left[0].1) + after;
        lemma_encode_pairs_with_front(left, write_key, write_value);
        assert(left[0] == pairs[k]);
        assert(comes_back_with(pairs[k].0, write_key, read_key));
        assert(comes_back_with(pairs[k].1, write_value, read_value));
        assert(s =~= write_key(pairs[k].0) + after_key);
        assert(read_key(write_key(pairs[k].0) + after_key) == Parsed::<K>::Ok(
            (pairs[k].0, after_key),
        ));
        assert(read_value(write_value(pairs[k].1) + after) == Parsed::<V>::Ok(
            (pairs[k].1, after),
        ));
        assert(left.drop_first() =~= pairs.skip(k + 1));
        lemma_pairs_round_trip_with(
            pairs,
            k + 1,
            write_key,
            write_value,
            read_key,
            read_value,
            rest,
        );
        assert(seq![pairs[k]] + pairs.skip(k + 1) =~= left);
    }
}

/// Round trip of a dictionary that is read pair by pair: where every key
/// and every value has a token of its own under its writer and reader,
/// the dictionary that is opened, written key by key and value by value
/// and closed is read back, by opening it, reading a key and a value as
/// long as it goes on, and closing it, as the same pairs in the same
/// order: each key with the value that was written behind it. The
/// dictionary, empty or not, has then a token of its own.
pub proof fn lemma_dict_comes_back<K, V>(
    pairs: Seq<(K, V)>,
    write_key: spec_fn(K) -> Seq<char>,
    write_value: spec_fn(V) -> Seq<char>,
    read_key: spec_fn(Seq<char>) -> Parsed<K>,
    read_value: spec_fn(Seq<char>) -> Parsed<V>,
)
    requires
        forall|i: int|
            0 <= i < pairs.len() ==> comes_back_with(
                (#[trigger] pairs[i]).0,
                write_key,
                read_key,
            ) && comes_back_with(pairs[i].1, write_value, read_value),
    ensures
        comes_back_with(
            pairs,
            dict_writer(write_key, write_value),
            dict_reader(read_key, read_value),
        ),
{
    assert forall|tail: Seq<char>| #[trigger]
        dict_reader(read_key, read_value)(dict_writer(write_key, write_value)(pairs) + tail)
            == Parsed::<Seq<(K, V)>>::Ok((pairs, tail)) by {
        let s = encode_dict_with(pairs, write_key, write_value) + tail;
        lemma_pairs_round_trip_with(pairs, 0, write_key, write_value, read_key, read_value, tail);
        assert(pairs.skip(0) =~= pairs);
        assert(s.skip(1) =~= encode_pairs_with(pairs, write_key, write_value) + seq!['e']
            + tail);
    }
}

/// Reading a list or a dictionary with nothing known of its items is
/// reading it item by item with the reader of values of whatever kind: the
/// one composition of opening, asking whether it goes on, reading and
/// closing serves both ways to read.
pub proof fn lemma_dispatch_reads_item_by_item(s: Seq<char>)
    ensures
        decode_items(s) == decode_items_with(s, value_reader()),
        decode_pairs(s) == decode_pairs_with(s, value_reader(), value_reader()),
        decode_list(s) == decode_list_with(s, value_reader()),
        decode_dict(s) == decode_dict_with(s, value_reader(), value_reader()),
    decreases s.len(),
{
    if s.len() > 0 {
        lemma_dispatch_reads_item_by_item(s.skip(1));
        if s[0] != 'e' {
            lemma_decode_value_moves(s);
            if let Ok((_, mid)) = decode_value(s) {
                lemma_dispatch_reads_item_by_item(mid);
                lemma_decode_value_moves(mid);
                if let Ok((_, rest)) = decode_value(mid) {
                    lemma_dispatch_reads_item_by_item(rest);
                }
            }
        }
    }
}

/// A value that comes back from its own text has a token of its own under
/// the writer and the reader of values of whatever kind.
pub proof fn lemma_value_comes_back(v: SpecValue)
    requires
        reads_back(v),
    ensures
        comes_back_with(v, value_writer(), value_reader()),
{
    lemma_encode_value_head(v);
    assert forall|tail: Seq<char>| #[trigger]
        value_reader()(value_writer()(v) + tail) == Parsed::<SpecValue>::Ok((v, tail)) by {
        lemma_value_round_trip(v, tail);
    }
}

/// Agreement of the two ways to read: where a text read with nothing
/// known of it gives a value, the reader of that value's own kind gives the
/// same value from the same text and leaves the same text behind.
pub proof fn lemma_dispatch_agrees(s: Seq<char>)
    ensures
        match decode_value(s) {
            Ok((SpecValue::Null, rest)) => decode_unit(s) == Parsed::<()>::Ok(((), rest)),
            Ok((SpecValue::Bool(b), rest)) => decode_bool(s) == Parsed::<bool>::Ok((b, rest)),
            Ok((SpecValue::Unsigned(n), rest)) => decode_unsigned(s, u64::MAX as nat) == Parsed::<
                nat,
            >::Ok((n as nat, rest)),
            Ok((SpecValue::Signed(n), rest)) => decode_signed(s, i64::MIN as int, i64::MAX as int)
                == Parsed::<int>::Ok((n as int, rest)),
            Ok((SpecValue::Str(text), rest)) => decode_string(s) == Parsed::<Seq<char>>::Ok(
                (text, rest),
            ),
            Ok((SpecValue::List(items), rest)) => decode_list(s) == Parsed::<Seq<SpecValue>>::Ok(
                (items, rest),
            ),
            Ok((SpecValue::Dict(pairs), rest)) => decode_dict(s) == Parsed::<
                Seq<(SpecValue, SpecValue)>,
            >::Ok((pairs, rest)),
            Err(_) => true,
        },
{
}

/// The known gap between writing and reading enum variants: a variant that
/// carries nothing is written as a bare string, and a reader of enums, of
/// whatever form, refuses the bare string because no dictionary opens.
pub proof fn lemma_unit_variant_is_not_read(name: Seq<char>, form: Variant, rest: Seq<char>)
    ensures
        decode_enum(encode_str(name) + rest, form) == Parsed::<(Seq<char>, SpecValue)>::Err(
            Error::ExpectedDictionary,
        ),
{
    lemma_decimal(utf8_len(name));
    assert((encode_str(name) + rest)[0] == decimal(utf8_len(name))[0]);
}

/// A variant that carries one value, written and then read as a variant of
/// that form, gives back its name and the value.
pub proof fn lemma_newtype_variant_round_trip(name: Seq<char>, v: SpecValue, rest: Seq<char>)
    requires
        reads_back(v),
    ensures
        decode_enum(encode_newtype_variant(name, encode_value(v)) + rest, Variant::Newtype)
            == Parsed::<(Seq<char>, SpecValue)>::Ok(((name, v), rest)),
{
    let s = encode_newtype_variant(name, encode_value(v)) + rest;
    let after_payload = seq!['e'] + rest;
    let after_name = encode_value(v) + after_payload;
    assert(s.skip(1) =~= encode_str(name) + after_name);
    lemma_string_round_trip(name, after_name);
    lemma_value_round_trip(v, after_payload);
    assert(after_payload.skip(1) =~= rest);
}

/// A variant that carries a row of values, written and then read as a
/// variant of that form, gives back its name and the values as a list.
pub proof fn lemma_tuple_variant_round_trip(
    name: Seq<char>,
    items: Seq<SpecValue>,
    rest: Seq<char>,
)
    requires
        reads_back(SpecValue::List(items)),
    ensures
        decode_enum(
            seq!['d'] + encode_str(name) + seq!['l'] + encode_items(items) + seq!['e', 'e'] + rest,
            Variant::Tuple,
        ) == Parsed::<(Seq<char>, SpecValue)>::Ok(((name, SpecValue::List(items)), rest)),
{
    let s = seq!['d'] + encode_str(name) + seq!['l'] + encode_items(items) + seq!['e', 'e'] + rest;
    let after_payload = seq!['e'] + rest;
    let after_name = encode_value(SpecValue::List(items)) + after_payload;
    assert(s.skip(1) =~= encode_str(name) + after_name);
    lemma_string_round_trip(name, after_name);
    lemma_value_round_trip(SpecValue::List(items), after_payload);
    lemma_dispatch_agrees(after_name);
    assert(after_payload.skip(1) =~= rest);
}

/// A variant that carries named fields, written and then read as a variant
/// of that form, gives back its name and the fields as a dictionary.
pub proof fn lemma_struct_variant_round_trip(
    name: Seq<char>,
    pairs: Seq<(SpecValue, SpecValue)>,
    rest: Seq<char>,
)
    requires
        reads_back(SpecValue::Dict(pairs)),
    ensures
        decode_enum(
            seq!['d'] + encode_str(name) + seq!['d'] + encode_pairs(pairs) + seq!['e', 'e'] + rest,
            Variant::Struct,
        ) == Parsed::<(Seq<char>, SpecValue)>::Ok(((name, SpecValue::Dict(pairs)), rest)),
{
    let s = seq!['d'] + encode_str(name) + seq!['d'] + encode_pairs(pairs) + seq!['e', 'e'] + rest;
    let after_payload = seq!['e'] + rest;
    let after_name = encode_value(SpecValue::Dict(pairs)) + after_payload;
    assert(s.skip(1) =~= encode_str(name) + after_name);
    lemma_string_round_trip(name, after_name);
    lemma_value_round_trip(SpecValue::Dict(pairs), after_payload);
    lemma_dispatch_agrees(after_name);
    assert(after_payload.skip(1) =~= rest);
}

} // verus!
