//! Reading: a cursor over a text, and a reader for each kind of token.

use crate::decimal::{
    digit_run, digits_value, is_digit, lemma_digit_run, lemma_digit_run_is,
    lemma_digits_value_grows, lemma_digits_value_step,
};
use crate::error::{Error, Result};
use crate::laws::{
    lemma_decode_string_moves, lemma_decode_value_moves, lemma_leaves_all, lemma_leaves_skip,
    lemma_leaves_twice,
};
use crate::value::{
    items_view, lemma_dict_view, lemma_items_view_push, lemma_list_view, lemma_pairs_view_push,
    pairs_view, Kind, SpecValue, Value, Variant,
};
use crate::wire::{
    decode_bool, decode_char, decode_dict, decode_digits, decode_enum, decode_items, decode_kind,
    decode_list, decode_mark, decode_more, decode_next, decode_option, decode_pairs,
    decode_payload, decode_signed, decode_string, decode_text, decode_unsigned, decode_unit,
    decode_value, leaves, Parsed,
};
use vstd::prelude::*;
use vstd::string::*;
use vstd::utf8::*;

verus! {

broadcast use {lemma_leaves_all, lemma_leaves_twice, lemma_leaves_skip};

/// A cursor over the text that is still to be read.
///
/// Reading a token moves the cursor to the first character behind the
/// token. The strings that come out of it are slices of the text that it
/// was made from.
pub struct Deserializer<'de> {
    input: &'de str,
}

impl<'de> View for Deserializer<'de> {
    type V = Seq<char>;

    /// The text that is still to be read.
    closed spec fn view(&self) -> Seq<char> {
        self.input@
    }
}

impl<'de> Deserializer<'de> {
    /// A cursor at the start of `input`.
    pub fn from_str(input: &'de str) -> (de: Self)
        ensures
            de@ == input@,
    {
        Deserializer { input }
    }

    /// The next character, which stays where it is.
    pub fn peek_char(&self) -> (r: Result<char>)
        ensures
            self@.len() > 0 ==> r == Result::<char>::Ok(self@[0]),
            self@.len() == 0 ==> r == Result::<char>::Err(Error::Eof),
    {
        broadcast use group_string_axioms;

        let mut chars = self.input.chars();
        match chars.next() {
            Some(c) => Ok(c),
            None => Err(Error::Eof),
        }
    }

    /// The character behind the next one, if the text reaches that far.
    fn peek_second(&self) -> (r: Option<char>)
        ensures
            self@.len() > 1 ==> r == Some(self@[1]),
            self@.len() <= 1 ==> r is None,
    {
        broadcast use group_string_axioms;

        let mut chars = self.input.chars();
        let _ = chars.next();
        chars.next()
    }

    /// Moves the cursor over the next character, which is `c`.
    fn advance(&mut self, c: char)
        requires
            old(self)@.len() > 0,
            old(self)@[0] == c,
        ensures
            leaves(old(self)@, final(self)@),
            final(self)@ == old(self)@.skip(1),
    {
        let code: u32 = c as u32;
        let width: usize = if code < 0x80 {
            1
        } else if code < 0x800 {
            2
        } else if code < 0x10000 {
            3
        } else {
            4
        };
        let ghost text = self.input@;
        let ghost bytes = encode_utf8(text);
        proof {
            encode_utf8_first_scalar(text);
            encode_utf8_valid_utf8(text);
            reveal_with_fuel(is_char_boundary, 2);
        }
        let (_, rest) = self.input.split_at(width);
        proof {
            assert(bytes.subrange(width as int, bytes.len() as int) =~= encode_utf8(
                text.drop_first(),
            ));
            encode_utf8_decode_utf8(rest@);
            encode_utf8_decode_utf8(text.drop_first());
        }
        self.input = rest;
    }

    /// Takes the next character.
    pub fn next_char(&mut self) -> (r: Result<char>)
        ensures
            leaves(old(self)@, final(self)@),
            old(self)@.len() > 0 ==> r == Result::<char>::Ok(old(self)@[0])
                && final(self)@ == old(self)@.skip(1),
            old(self)@.len() == 0 ==> r == Result::<char>::Err(Error::Eof)
                && final(self)@ == old(self)@,
    {
        let c = self.peek_char()?;
        self.advance(c);
        Ok(c)
    }

    /// Reads a boolean token: `T` is true and `F` is false. Anything else
    /// is refused and stays where it is.
    pub fn parse_bool(&mut self) -> (r: Result<bool>)
        ensures
            leaves(old(self)@, final(self)@),
            match decode_bool(old(self)@) {
                Ok((b, rest)) => r == Result::<bool>::Ok(b) && final(self)@ == rest,
                Err(e) => r == Result::<bool>::Err(e) && final(self)@ == old(self)@,
            },
    {
        match self.peek_char() {
            Ok(c) => {
                if c == 'T' {
                    self.advance(c);
                    Ok(true)
                } else if c == 'F' {
                    self.advance(c);
                    Ok(false)
                } else {
                    Err(Error::ExpectedBoolean)
                }
            },
            Err(_) => Err(Error::ExpectedBoolean),
        }
    }

    /// Reads the digits of a number and the `e` that ends it. Comes back
    /// empty-handed where there is no digit, where no `e` follows the
    /// digits, and where the number is too large for 64 bits.
    fn parse_digits(&mut self) -> (r: Option<u64>)
        ensures
            leaves(old(self)@, final(self)@),
            match decode_digits(old(self)@) {
                Some((n, rest)) => if n <= u64::MAX {
                    r == Some(n as u64) && final(self)@ == rest
                } else {
                    r is None
                },
                None => r is None,
            },
    {
        let ghost text = self@;
        let ghost mut seen: int = 0;
        let mut value: u64 = 0;
        let mut any = false;
        loop
            invariant
                text == old(self)@,
                any == (seen > 0),
                0 <= seen <= text.len(),
                self@ == text.skip(seen),
                forall|i: int| 0 <= i < seen ==> is_digit(#[trigger] text[i]),
                value == digits_value(text.take(seen)),
            decreases text.len() - seen,
        {
            let c = match self.peek_char() {
                Ok(c) => c,
                Err(_) => {
                    proof {
                        lemma_digit_run_is(text, seen);
                    }
                    return None;
                },
            };
            if '0' <= c && c <= '9' {
                let digit: u64 = (c as u32 - '0' as u32) as u64;
                proof {
                    lemma_digits_value_step(text, seen);
                }
                let next = match value.checked_mul(10) {
                    Some(tens) => tens.checked_add(digit),
                    None => None,
                };
                match next {
                    Some(n) => {
                        self.advance(c);
                        value = n;
                        any = true;
                        proof {
                            seen = seen + 1;
                            assert(text.skip(seen - 1).skip(1) =~= text.skip(seen));
                        }
                    },
                    None => {
                        proof {
                            lemma_digit_run(text);
                            let run = digit_run(text) as int;
                            assert(run > seen) by {
                                if run <= seen {
                                    assert(is_digit(text[run]));
                                }
                            }
                            lemma_digits_value_grows(text, seen + 1, run);
                        }
                        return None;
                    },
                }
            } else {
                proof {
                    lemma_digit_run_is(text, seen);
                }
                if c == 'e' && any {
                    self.advance(c);
                    proof {
                        assert(text.skip(seen).skip(1) =~= text.skip(seen + 1));
                    }
                    return Some(value);
                } else {
                    return None;
                }
            }
        }
    }

    /// Reads an integer token without a sign: `i`, at least one digit,
    /// `e`. Leading zeros are read over. A `-` is an error here, and so are
    /// a token without a digit and a number above the 64 bits.
    pub fn parse_unsigned(&mut self) -> (r: Result<u64>)
        ensures
            leaves(old(self)@, final(self)@),
            match decode_unsigned(old(self)@, u64::MAX as nat) {
                Ok((n, rest)) => r == Result::<u64>::Ok(n as u64) && final(self)@ == rest,
                Err(e) => r == Result::<u64>::Err(e),
            },
    {
        if self.next_char()? != 'i' {
            return Err(Error::ExpectedInteger);
        }
        match self.parse_digits() {
            Some(n) => Ok(n),
            None => Err(Error::ExpectedInteger),
        }
    }

    /// Reads an integer token with or without a sign: `i`, `-` or not, at
    /// least one digit, `e`. The digits are read as in `parse_unsigned`,
    /// and the number is negated where the `-` stood. A token without a
    /// digit is an error, and so is a number outside the 64 bits.
    pub fn parse_signed(&mut self) -> (r: Result<i64>)
        ensures
            leaves(old(self)@, final(self)@),
            match decode_signed(old(self)@, i64::MIN as int, i64::MAX as int) {
                Ok((v, rest)) => r == Result::<i64>::Ok(v as i64) && final(self)@ == rest,
                Err(e) => r == Result::<i64>::Err(e),
            },
    {
        if self.next_char()? != 'i' {
            return Err(Error::ExpectedInteger);
        }
        let mut negative = false;
        let c = self.peek_char()?;
        if c == '-' {
            negative = true;
            self.advance(c);
            proof {
                assert(old(self)@.skip(1).skip(1) =~= old(self)@.skip(2));
            }
        }
        let magnitude = match self.parse_digits() {
            Some(n) => n,
            None => {
                return Err(Error::ExpectedInteger);
            },
        };
        if negative {
            if magnitude <= 0x7fff_ffff_ffff_ffff {
                Ok(-(magnitude as i64))
            } else if magnitude == 0x8000_0000_0000_0000 {
                Ok(i64::MIN)
            } else {
                Err(Error::ExpectedInteger)
            }
        } else {
            if magnitude <= 0x7fff_ffff_ffff_ffff {
                Ok(magnitude as i64)
            } else {
                Err(Error::ExpectedInteger)
            }
        }
    }

    /// Reads a string token: digits that give the length in bytes, `:`,
    /// and that many bytes, which are the string. Nothing in the string is
    /// escaped and nothing in it is looked at. The input ending before the
    /// bytes are all there is `Eof`; a length that ends inside a character
    /// is `ExpectedString`, as is anything but digits and `:` in front.
    pub fn parse_string(&mut self) -> (r: Result<&'de str>)
        ensures
            leaves(old(self)@, final(self)@),
            match decode_string(old(self)@) {
                Ok((text, rest)) => r matches Ok(s) && s@ == text && final(self)@ == rest,
                Err(e) => r == Result::<&str>::Err(e),
            },
    {
        let ghost text = self@;
        let first = self.peek_char()?;
        if !('0' <= first && first <= '9') {
            return Err(Error::ExpectedString);
        }
        let ghost mut seen: int = 0;
        let mut length: usize = 0;
        let mut fits = true;
        loop
            invariant_except_break
                self@ == text.skip(seen),
            invariant
                text == old(self)@,
                text.len() > 0,
                is_digit(text[0]),
                0 <= seen <= text.len(),
                forall|i: int| 0 <= i < seen ==> is_digit(#[trigger] text[i]),
                fits ==> length == digits_value(text.take(seen)),
                !fits ==> digits_value(text.take(seen)) > usize::MAX,
            ensures
                seen == digit_run(text),
                seen < text.len(),
                text[seen] == ':',
                self@ == text.skip(seen + 1),
            decreases text.len() - seen,
        {
            let c = match self.peek_char() {
                Ok(c) => c,
                Err(_) => {
                    proof {
                        lemma_digit_run_is(text, seen);
                    }
                    return Err(Error::ExpectedString);
                },
            };
            if '0' <= c && c <= '9' {
                let digit: usize = (c as u32 - '0' as u32) as usize;
                proof {
                    lemma_digits_value_step(text, seen);
                }
                if fits {
                    let next = match length.checked_mul(10) {
                        Some(tens) => tens.checked_add(digit),
                        None => None,
                    };
                    match next {
                        Some(n) => {
                            length = n;
                        },
                        None => {
                            fits = false;
                        },
                    }
                }
                self.advance(c);
                proof {
                    seen = seen + 1;
                    assert(text.skip(seen - 1).skip(1) =~= text.skip(seen));
                }
            } else {
                proof {
                    lemma_digit_run_is(text, seen);
                }
                if c != ':' {
                    return Err(Error::ExpectedString);
                }
                self.advance(c);
                proof {
                    assert(text.skip(seen).skip(1) =~= text.skip(seen + 1));
                }
                break ;
            }
        }
        let available = self.input.as_bytes().len();
        if !fits || length > available {
            return Err(Error::Eof);
        }
        if !self.input.is_char_boundary(length) {
            return Err(Error::ExpectedString);
        }
        let (string, rest) = self.input.split_at(length);
        proof {
            encode_utf8_decode_utf8(string@);
            encode_utf8_decode_utf8(rest@);
            lemma_decode_string_moves(text);
        }
        self.input = rest;
        Ok(string)
    }

    /// Takes the null token, `N`, if it stands next, and tells whether it
    /// did. Anything else stays where it is.
    pub fn take_null(&mut self) -> (taken: bool)
        ensures
            leaves(old(self)@, final(self)@),
            taken == (old(self)@.len() > 0 && old(self)@[0] == 'N'),
            taken ==> final(self)@ == old(self)@.skip(1),
            !taken ==> final(self)@ == old(self)@,
    {
        match self.peek_char() {
            Ok(c) => {
                if c == 'N' {
                    self.advance(c);
                    true
                } else {
                    false
                }
            },
            Err(_) => false,
        }
    }

    /// Reads the null token, `N`. Anything else is refused and
    /// stays where it is.
    pub fn deserialize_unit(&mut self) -> (r: Result<()>)
        ensures
            leaves(old(self)@, final(self)@),
            match decode_unit(old(self)@) {
                Ok((_, rest)) => r is Ok && final(self)@ == rest,
                Err(e) => r == Result::<()>::Err(e) && final(self)@ == old(self)@,
            },
    {
        if self.take_null() {
            Ok(())
        } else {
            Err(Error::ExpectedNull)
        }
    }

    /// Reads a string token that holds one byte, and gives the byte as a
    /// character. A string of any other length is `Syntax`.
    pub fn deserialize_char(&mut self) -> (r: Result<char>)
        ensures
            leaves(old(self)@, final(self)@),
            match decode_char(old(self)@) {
                Ok((c, rest)) => r == Result::<char>::Ok(c) && final(self)@ == rest,
                Err(e) => r == Result::<char>::Err(e),
            },
    {
        broadcast use group_string_axioms;

        let string = self.parse_string()?;
        if string.as_bytes().len() != 1 {
            Err(Error::Syntax)
        } else {
            proof {
                assert(string@.len() > 0) by {
                    if string@.len() == 0 {
                        assert(encode_utf8(string@).len() == 0);
                    }
                }
            }
            let mut chars = string.chars();
            match chars.next() {
                Some(c) => Ok(c),
                None => Err(Error::Syntax),
            }
        }
    }

    /// The kind of value that stands next, told from its first character,
    /// and for an integer from the one behind it. Nothing is taken.
    pub fn peek_kind(&self) -> (r: Result<Kind>)
        ensures
            r == decode_kind(self@),
    {
        let c = self.peek_char()?;
        if c == 'N' {
            Ok(Kind::Null)
        } else if c == 'T' || c == 'F' {
            Ok(Kind::Boolean)
        } else if '0' <= c && c <= '9' {
            Ok(Kind::String)
        } else if c == 'i' {
            match self.peek_second() {
                None => Err(Error::Eof),
                Some(sign) => {
                    if sign == '-' {
                        Ok(Kind::Signed)
                    } else if '0' <= sign && sign <= '9' {
                        Ok(Kind::Unsigned)
                    } else {
                        Err(Error::Syntax)
                    }
                },
            }
        } else if c == 'l' {
            Ok(Kind::List)
        } else if c == 'd' {
            Ok(Kind::Dictionary)
        } else {
            Err(Error::Syntax)
        }
    }

    /// Reads one value of whatever kind stands next, as the reader of that
    /// kind reads it. Where no kind is announced nothing is taken.
    pub fn deserialize_any(&mut self) -> (r: Result<Value<'de>>)
        ensures
            leaves(old(self)@, final(self)@),
            decode_kind(old(self)@) is Err ==> final(self)@ == old(self)@,
            match decode_value(old(self)@) {
                Ok((v, rest)) => r matches Ok(value) && value@ == v && final(self)@ == rest,
                Err(e) => r == Result::<Value>::Err(e),
            },
        decreases old(self)@.len(), 1int,
    {
        match self.peek_kind()? {
            Kind::Null => {
                self.deserialize_unit()?;
                Ok(Value::Null)
            },
            Kind::Boolean => Ok(Value::Bool(self.parse_bool()?)),
            Kind::String => Ok(Value::Str(self.parse_string()?)),
            Kind::Signed => Ok(Value::Signed(self.parse_signed()?)),
            Kind::Unsigned => Ok(Value::Unsigned(self.parse_unsigned()?)),
            Kind::List => {
                let items = self.deserialize_seq()?;
                proof {
                    lemma_list_view(items);
                }
                Ok(Value::List(items))
            },
            Kind::Dictionary => {
                let pairs = self.deserialize_map()?;
                proof {
                    lemma_dict_view(pairs);
                }
                Ok(Value::Dict(pairs))
            },
        }
    }

    /// Reads the `l` that opens a list.
    pub fn open_list(&mut self) -> (r: Result<()>)
        ensures
            leaves(old(self)@, final(self)@),
            match decode_mark(old(self)@, 'l', Error::Eof, Error::ExpectedList) {
                Ok((_, rest)) => r is Ok && final(self)@ == rest,
                Err(e) => r == Result::<()>::Err(e),
            },
    {
        if self.next_char()? == 'l' {
            Ok(())
        } else {
            Err(Error::ExpectedList)
        }
    }

    /// Reads the `e` that closes a list.
    pub fn close_list(&mut self) -> (r: Result<()>)
        ensures
            leaves(old(self)@, final(self)@),
            match decode_mark(old(self)@, 'e', Error::ExpectedListEnd, Error::ExpectedListEnd) {
                Ok((_, rest)) => r is Ok && final(self)@ == rest,
                Err(e) => r == Result::<()>::Err(e),
            },
    {
        match self.next_char() {
            Ok(c) => {
                if c == 'e' {
                    Ok(())
                } else {
                    Err(Error::ExpectedListEnd)
                }
            },
            Err(_) => Err(Error::ExpectedListEnd),
        }
    }

    /// Reads the `d` that opens a dictionary.
    pub fn open_dictionary(&mut self) -> (r: Result<()>)
        ensures
            leaves(old(self)@, final(self)@),
            match decode_mark(old(self)@, 'd', Error::Eof, Error::ExpectedDictionary) {
                Ok((_, rest)) => r is Ok && final(self)@ == rest,
                Err(e) => r == Result::<()>::Err(e),
            },
    {
        if self.next_char()? == 'd' {
            Ok(())
        } else {
            Err(Error::ExpectedDictionary)
        }
    }

    /// Reads the `e` that closes a dictionary.
    pub fn close_dictionary(&mut self) -> (r: Result<()>)
        ensures
            leaves(old(self)@, final(self)@),
            match decode_mark(
                old(self)@,
                'e',
                Error::ExpectedDictionaryEnd,
                Error::ExpectedDictionaryEnd,
            ) {
                Ok((_, rest)) => r is Ok && final(self)@ == rest,
                Err(e) => r == Result::<()>::Err(e),
            },
    {
        match self.next_char() {
            Ok(c) => {
                if c == 'e' {
                    Ok(())
                } else {
                    Err(Error::ExpectedDictionaryEnd)
                }
            },
            Err(_) => Err(Error::ExpectedDictionaryEnd),
        }
    }

    /// Tells whether a list goes on: it does unless `e` stands next. A
    /// text that has ended has left its list open.
    pub fn more_items(&self) -> (r: Result<bool>)
        ensures
            r == decode_more(self@, Error::ExpectedListEnd),
    {
        match self.peek_char() {
            Ok(c) => Ok(c != 'e'),
            Err(_) => Err(Error::ExpectedListEnd),
        }
    }

    /// Tells whether a dictionary goes on: it does unless `e` stands next.
    /// A text that has ended has left its dictionary open.
    pub fn more_pairs(&self) -> (r: Result<bool>)
        ensures
            r == decode_more(self@, Error::ExpectedDictionaryEnd),
    {
        match self.peek_char() {
            Ok(c) => Ok(c != 'e'),
            Err(_) => Err(Error::ExpectedDictionaryEnd),
        }
    }

    /// Reads the next item of a list, if the list goes on.
    pub fn next_element(&mut self) -> (r: Result<Option<Value<'de>>>)
        ensures
            leaves(old(self)@, final(self)@),
            match decode_next(old(self)@, Error::ExpectedListEnd) {
                Ok((Some(v), rest)) => r matches Ok(Some(value)) && value@ == v && final(self)@
                    == rest,
                Ok((None, rest)) => r matches Ok(None) && final(self)@ == rest,
                Err(e) => r == Result::<Option<Value>>::Err(e),
            },
        decreases old(self)@.len(), 2int,
    {
        if self.more_items()? {
            Ok(Some(self.deserialize_any()?))
        } else {
            Ok(None)
        }
    }

    /// Reads the next key of a dictionary, if the dictionary goes on.
    pub fn next_key(&mut self) -> (r: Result<Option<Value<'de>>>)
        ensures
            leaves(old(self)@, final(self)@),
            match decode_next(old(self)@, Error::ExpectedDictionaryEnd) {
                Ok((Some(v), rest)) => r matches Ok(Some(value)) && value@ == v && final(self)@
                    == rest,
                Ok((None, rest)) => r matches Ok(None) && final(self)@ == rest,
                Err(e) => r == Result::<Option<Value>>::Err(e),
            },
        decreases old(self)@.len(), 2int,
    {
        if self.more_pairs()? {
            Ok(Some(self.deserialize_any()?))
        } else {
            Ok(None)
        }
    }

    /// Reads the value that belongs to the key read last.
    pub fn next_value(&mut self) -> (r: Result<Value<'de>>)
        ensures
            leaves(old(self)@, final(self)@),
            match decode_value(old(self)@) {
                Ok((v, rest)) => r matches Ok(value) && value@ == v && final(self)@ == rest,
                Err(e) => r == Result::<Value>::Err(e),
            },
        decreases old(self)@.len(), 2int,
    {
        self.deserialize_any()
    }

    /// Reads a list: `l`, the items one after the other, each of whatever
    /// kind it announces, and `e`.
    pub fn deserialize_seq(&mut self) -> (r: Result<Vec<Value<'de>>>)
        ensures
            leaves(old(self)@, final(self)@),
            match decode_list(old(self)@) {
                Ok((items, rest)) => r matches Ok(list) && items_view(list@) == items
                    && final(self)@ == rest,
                Err(e) => r == Result::<Vec<Value>>::Err(e),
            },
        decreases old(self)@.len(), 0int,
    {
        self.open_list()?;
        let ghost body = self@;
        let mut list: Vec<Value<'de>> = Vec::new();
        loop
            invariant
                body.len() < old(self)@.len(),
                self@.len() <= body.len(),
                leaves(old(self)@, self@),
                decode_list(old(self)@) == decode_items(body),
                match decode_items(self@) {
                    Ok((items, rest)) => decode_items(body) == Parsed::<Seq<SpecValue>>::Ok(
                        (items_view(list@) + items, rest),
                    ),
                    Err(e) => decode_items(body) == Parsed::<Seq<SpecValue>>::Err(e),
                },
            decreases self@.len(),
        {
            let ghost before = self@;
            match self.next_element()? {
                Some(item) => {
                    proof {
                        lemma_decode_value_moves(before);
                        lemma_items_view_push(list@, item);
                        if let Ok((items, _)) = decode_items(self@) {
                            assert(items_view(list@).push(item@) + items =~= items_view(list@) + (
                            seq![item@] + items));
                        }
                    }
                    list.push(item);
                },
                None => {
                    self.close_list()?;
                    proof {
                        assert(items_view(list@) + Seq::<SpecValue>::empty() =~= items_view(list@));
                    }
                    return Ok(list);
                },
            }
        }
    }

    /// Reads a dictionary: `d`, the keys and values in turn, each of
    /// whatever kind it announces, and `e`.
    pub fn deserialize_map(&mut self) -> (r: Result<Vec<(Value<'de>, Value<'de>)>>)
        ensures
            leaves(old(self)@, final(self)@),
            match decode_dict(old(self)@) {
                Ok((pairs, rest)) => r matches Ok(dict) && pairs_view(dict@) == pairs
                    && final(self)@ == rest,
                Err(e) => r == Result::<Vec<(Value, Value)>>::Err(e),
            },
        decreases old(self)@.len(), 0int,
    {
        self.open_dictionary()?;
        let ghost body = self@;
        let mut dict: Vec<(Value<'de>, Value<'de>)> = Vec::new();
        loop
            invariant
                body.len() < old(self)@.len(),
                self@.len() <= body.len(),
                leaves(old(self)@, self@),
                decode_dict(old(self)@) == decode_pairs(body),
                match decode_pairs(self@) {
                    Ok((pairs, rest)) => decode_pairs(body) == Parsed::<
                        Seq<(SpecValue, SpecValue)>,
                    >::Ok((pairs_view(dict@) + pairs, rest)),
                    Err(e) => decode_pairs(body) == Parsed::<Seq<(SpecValue, SpecValue)>>::Err(e),
                },
            decreases self@.len(),
        {
            let ghost before = self@;
            match self.next_key()? {
                Some(key) => {
                    let ghost after_key = self@;
                    proof {
                        lemma_decode_value_moves(before);
                    }
                    let value = self.next_value()?;
                    proof {
                        lemma_decode_value_moves(after_key);
                        lemma_pairs_view_push(dict@, (key, value));
                        if let Ok((pairs, _)) = decode_pairs(self@) {
                            assert(pairs_view(dict@).push((key@, value@)) + pairs =~= pairs_view(
                                dict@,
                            ) + (seq![(key@, value@)] + pairs));
                        }
                    }
                    dict.push((key, value));
                },
                None => {
                    self.close_dictionary()?;
                    proof {
                        assert(pairs_view(dict@) + Seq::<(SpecValue, SpecValue)>::empty()
                            =~= pairs_view(dict@));
                    }
                    return Ok(dict);
                },
            }
        }
    }

    /// Reads an integer token without a sign for a `u8`: a number above
    /// the range of `u8` is `ExpectedInteger`.
    pub fn deserialize_u8(&mut self) -> (r: Result<u8>)
        ensures
            leaves(old(self)@, final(self)@),
            match decode_unsigned(old(self)@, u8::MAX as nat) {
                Ok((n, rest)) => r == Result::<u8>::Ok(n as u8) && final(self)@ == rest,
                Err(e) => r == Result::<u8>::Err(e),
            },
    {
        let n = self.parse_unsigned()?;
        if n <= u8::MAX as u64 {
            Ok(n as u8)
        } else {
            Err(Error::ExpectedInteger)
        }
    }

    /// Reads an integer token without a sign for a `u16`: a number above
    /// the range of `u16` is `ExpectedInteger`.
    pub fn deserialize_u16(&mut self) -> (r: Result<u16>)
        ensures
            leaves(old(self)@, final(self)@),
            match decode_unsigned(old(self)@, u16::MAX as nat) {
                Ok((n, rest)) => r == Result::<u16>::Ok(n as u16) && final(self)@ == rest,
                Err(e) => r == Result::<u16>::Err(e),
            },
    {
        let n = self.parse_unsigned()?;
        if n <= u16::MAX as u64 {
            Ok(n as u16)
        } else {
            Err(Error::ExpectedInteger)
        }
    }

    /// Reads an integer token without a sign for a `u32`: a number above
    /// the range of `u32` is `ExpectedInteger`.
    pub fn deserialize_u32(&mut self) -> (r: Result<u32>)
        ensures
            leaves(old(self)@, final(self)@),
            match decode_unsigned(old(self)@, u32::MAX as nat) {
                Ok((n, rest)) => r == Result::<u32>::Ok(n as u32) && final(self)@ == rest,
                Err(e) => r == Result::<u32>::Err(e),
            },
    {
        let n = self.parse_unsigned()?;
        if n <= u32::MAX as u64 {
            Ok(n as u32)
        } else {
            Err(Error::ExpectedInteger)
        }
    }

    /// Reads an integer token for an `i8`: a number outside the range of
    /// `i8` is `ExpectedInteger`.
    pub fn deserialize_i8(&mut self) -> (r: Result<i8>)
        ensures
            leaves(old(self)@, final(self)@),
            match decode_signed(old(self)@, i8::MIN as int, i8::MAX as int) {
                Ok((v, rest)) => r == Result::<i8>::Ok(v as i8) && final(self)@ == rest,
                Err(e) => r == Result::<i8>::Err(e),
            },
    {
        let v = self.parse_signed()?;
        if i8::MIN as i64 <= v && v <= i8::MAX as i64 {
            Ok(v as i8)
        } else {
            Err(Error::ExpectedInteger)
        }
    }

    /// Reads an integer token for an `i16`: a number outside the range of
    /// `i16` is `ExpectedInteger`.
    pub fn deserialize_i16(&mut self) -> (r: Result<i16>)
        ensures
            leaves(old(self)@, final(self)@),
            match decode_signed(old(self)@, i16::MIN as int, i16::MAX as int) {
                Ok((v, rest)) => r == Result::<i16>::Ok(v as i16) && final(self)@ == rest,
                Err(e) => r == Result::<i16>::Err(e),
            },
    {
        let v = self.parse_signed()?;
        if i16::MIN as i64 <= v && v <= i16::MAX as i64 {
            Ok(v as i16)
        } else {
            Err(Error::ExpectedInteger)
        }
    }

    /// Reads an integer token for an `i32`: a number outside the range of
    /// `i32` is `ExpectedInteger`.
    pub fn deserialize_i32(&mut self) -> (r: Result<i32>)
        ensures
            leaves(old(self)@, final(self)@),
            match decode_signed(old(self)@, i32::MIN as int, i32::MAX as int) {
                Ok((v, rest)) => r == Result::<i32>::Ok(v as i32) && final(self)@ == rest,
                Err(e) => r == Result::<i32>::Err(e),
            },
    {
        let v = self.parse_signed()?;
        if i32::MIN as i64 <= v && v <= i32::MAX as i64 {
            Ok(v as i32)
        } else {
            Err(Error::ExpectedInteger)
        }
    }

    /// Reads an integer token without a sign for a `u64`.
    pub fn deserialize_u64(&mut self) -> (r: Result<u64>)
        ensures
            leaves(old(self)@, final(self)@),
            match decode_unsigned(old(self)@, u64::MAX as nat) {
                Ok((n, rest)) => r == Result::<u64>::Ok(n as u64) && final(self)@ == rest,
                Err(e) => r == Result::<u64>::Err(e),
            },
    {
        self.parse_unsigned()
    }

    /// Reads an integer token for an `i64`.
    pub fn deserialize_i64(&mut self) -> (r: Result<i64>)
        ensures
            leaves(old(self)@, final(self)@),
            match decode_signed(old(self)@, i64::MIN as int, i64::MAX as int) {
                Ok((v, rest)) => r == Result::<i64>::Ok(v as i64) && final(self)@ == rest,
                Err(e) => r == Result::<i64>::Err(e),
            },
    {
        self.parse_signed()
    }

    /// Reads a boolean token. Anything else is refused and stays where it
    /// is.
    pub fn deserialize_bool(&mut self) -> (r: Result<bool>)
        ensures
            leaves(old(self)@, final(self)@),
            match decode_bool(old(self)@) {
                Ok((b, rest)) => r == Result::<bool>::Ok(b) && final(self)@ == rest,
                Err(e) => r == Result::<bool>::Err(e) && final(self)@ == old(self)@,
            },
    {
        self.parse_bool()
    }

    /// Reads a string token.
    pub fn deserialize_str(&mut self) -> (r: Result<&'de str>)
        ensures
            leaves(old(self)@, final(self)@),
            match decode_string(old(self)@) {
                Ok((text, rest)) => r matches Ok(s) && s@ == text && final(self)@ == rest,
                Err(e) => r == Result::<&str>::Err(e),
            },
    {
        self.parse_string()
    }

    /// Reads a string token into a string of its own.
    pub fn deserialize_string(&mut self) -> (r: Result<String>)
        ensures
            leaves(old(self)@, final(self)@),
            match decode_string(old(self)@) {
                Ok((text, rest)) => r matches Ok(s) && s@ == text && final(self)@ == rest,
                Err(e) => r == Result::<String>::Err(e),
            },
    {
        Ok(self.deserialize_str()?.to_owned())
    }

    /// Reads the name of a field or of a variant, which is a string token.
    pub fn deserialize_identifier(&mut self) -> (r: Result<&'de str>)
        ensures
            leaves(old(self)@, final(self)@),
            match decode_string(old(self)@) {
                Ok((text, rest)) => r matches Ok(s) && s@ == text && final(self)@ == rest,
                Err(e) => r == Result::<&str>::Err(e),
            },
    {
        self.deserialize_str()
    }

    /// Reads a struct without fields, which is the null token. Anything else is refused and
    /// stays where it is.
    pub fn deserialize_unit_struct(&mut self) -> (r: Result<()>)
        ensures
            leaves(old(self)@, final(self)@),
            match decode_unit(old(self)@) {
                Ok((_, rest)) => r is Ok && final(self)@ == rest,
                Err(e) => r == Result::<()>::Err(e) && final(self)@ == old(self)@,
            },
    {
        self.deserialize_unit()
    }

    /// Reads a value that may be missing: the null token is the missing
    /// value, and anything else is read as a value of whatever kind it
    /// announces.
    pub fn deserialize_option(&mut self) -> (r: Result<Option<Value<'de>>>)
        ensures
            leaves(old(self)@, final(self)@),
            match decode_option(old(self)@) {
                Ok((Some(v), rest)) => r matches Ok(Some(value)) && value@ == v && final(self)@
                    == rest,
                Ok((None, rest)) => r matches Ok(None) && final(self)@ == rest,
                Err(e) => r == Result::<Option<Value>>::Err(e),
            },
    {
        if self.take_null() {
            Ok(None)
        } else {
            Ok(Some(self.deserialize_any()?))
        }
    }

    /// Reads a struct around one value, which is the value.
    pub fn deserialize_newtype_struct(&mut self) -> (r: Result<Value<'de>>)
        ensures
            leaves(old(self)@, final(self)@),
            match decode_value(old(self)@) {
                Ok((v, rest)) => r matches Ok(value) && value@ == v && final(self)@ == rest,
                Err(e) => r == Result::<Value>::Err(e),
            },
    {
        self.deserialize_any()
    }

    /// Reads a tuple, which is a list of however many items.
    pub fn deserialize_tuple(&mut self) -> (r: Result<Vec<Value<'de>>>)
        ensures
            leaves(old(self)@, final(self)@),
            match decode_list(old(self)@) {
                Ok((items, rest)) => r matches Ok(list) && items_view(list@) == items
                    && final(self)@ == rest,
                Err(e) => r == Result::<Vec<Value>>::Err(e),
            },
    {
        self.deserialize_seq()
    }

    /// Reads a tuple struct, which is a list of however many items.
    pub fn deserialize_tuple_struct(&mut self) -> (r: Result<Vec<Value<'de>>>)
        ensures
            leaves(old(self)@, final(self)@),
            match decode_list(old(self)@) {
                Ok((items, rest)) => r matches Ok(list) && items_view(list@) == items
                    && final(self)@ == rest,
                Err(e) => r == Result::<Vec<Value>>::Err(e),
            },
    {
        self.deserialize_seq()
    }

    /// Reads a struct, which is a dictionary of its fields' names and
    /// values.
    pub fn deserialize_struct(&mut self) -> (r: Result<Vec<(Value<'de>, Value<'de>)>>)
        ensures
            leaves(old(self)@, final(self)@),
            match decode_dict(old(self)@) {
                Ok((pairs, rest)) => r matches Ok(dict) && pairs_view(dict@) == pairs
                    && final(self)@ == rest,
                Err(e) => r == Result::<Vec<(Value, Value)>>::Err(e),
            },
    {
        self.deserialize_map()
    }

    /// Reads one value of whatever kind stands next and drops it.
    pub fn deserialize_ignored_any(&mut self) -> (r: Result<()>)
        ensures
            leaves(old(self)@, final(self)@),
            match decode_value(old(self)@) {
                Ok((_, rest)) => r is Ok && final(self)@ == rest,
                Err(e) => r == Result::<()>::Err(e),
            },
    {
        let _ = self.deserialize_any()?;
        Ok(())
    }

    /// Reads the name of an enum variant, which is a string token.
    pub fn variant(&mut self) -> (r: Result<&'de str>)
        ensures
            leaves(old(self)@, final(self)@),
            match decode_string(old(self)@) {
                Ok((text, rest)) => r matches Ok(s) && s@ == text && final(self)@ == rest,
                Err(e) => r == Result::<&str>::Err(e),
            },
    {
        self.deserialize_identifier()
    }

    /// A variant that carries nothing cannot be read from a dictionary:
    /// this is `ExpectedString` on every input, and nothing is taken.
    pub fn unit_variant(&self) -> (r: Result<()>)
        ensures
            r == Result::<()>::Err(Error::ExpectedString),
    {
        Err(Error::ExpectedString)
    }

    /// Reads the one value that a variant carries.
    pub fn newtype_variant(&mut self) -> (r: Result<Value<'de>>)
        ensures
            leaves(old(self)@, final(self)@),
            match decode_payload(old(self)@, Variant::Newtype) {
                Ok((v, rest)) => r matches Ok(value) && value@ == v && final(self)@ == rest,
                Err(e) => r == Result::<Value>::Err(e),
            },
    {
        self.deserialize_any()
    }

    /// Reads the row of values that a variant carries, which is a list.
    pub fn tuple_variant(&mut self) -> (r: Result<Value<'de>>)
        ensures
            leaves(old(self)@, final(self)@),
            match decode_payload(old(self)@, Variant::Tuple) {
                Ok((v, rest)) => r matches Ok(value) && value@ == v && final(self)@ == rest,
                Err(e) => r == Result::<Value>::Err(e),
            },
    {
        let items = self.deserialize_seq()?;
        proof {
            lemma_list_view(items);
        }
        Ok(Value::List(items))
    }

    /// Reads the named fields that a variant carries, which are a
    /// dictionary.
    pub fn struct_variant(&mut self) -> (r: Result<Value<'de>>)
        ensures
            leaves(old(self)@, final(self)@),
            match decode_payload(old(self)@, Variant::Struct) {
                Ok((v, rest)) => r matches Ok(value) && value@ == v && final(self)@ == rest,
                Err(e) => r == Result::<Value>::Err(e),
            },
    {
        let pairs = self.deserialize_map()?;
        proof {
            lemma_dict_view(pairs);
        }
        Ok(Value::Dict(pairs))
    }

    /// Reads an enum variant of the given form: `d`, the variant's name,
    /// what the variant carries, and `e`. Gives the name and what the
    /// variant carries. A variant that carries nothing is written as a
    /// bare string and is not read back: that form fails here.
    pub fn deserialize_enum(&mut self, form: Variant) -> (r: Result<(&'de str, Value<'de>)>)
        ensures
            leaves(old(self)@, final(self)@),
            match decode_enum(old(self)@, form) {
                Ok(((name, payload), rest)) => r matches Ok((n, v)) && n@ == name && v@ == payload
                    && final(self)@ == rest,
                Err(e) => r == Result::<(&str, Value)>::Err(e),
            },
    {
        self.open_dictionary()?;
        let name = self.variant()?;
        let payload = match form {
            Variant::Unit => {
                self.unit_variant()?;
                Value::Null
            },
            Variant::Newtype => self.newtype_variant()?,
            Variant::Tuple => self.tuple_variant()?,
            Variant::Struct => self.struct_variant()?,
        };
        self.close_dictionary()?;
        Ok((name, payload))
    }

    /// Holds the cursor to the end of the text: anything left is
    /// `TrailingCharacters`.
    pub fn end(&self) -> (r: Result<()>)
        ensures
            self@.len() == 0 ==> r is Ok,
            self@.len() > 0 ==> r == Result::<()>::Err(Error::TrailingCharacters),
    {
        if self.input.is_empty() {
            Ok(())
        } else {
            Err(Error::TrailingCharacters)
        }
    }
}

/// Reads a whole text as one value of whatever kind it announces. Text
/// behind the value is `TrailingCharacters`.
pub fn from_str<'a>(s: &'a str) -> (r: Result<Value<'a>>)
    ensures
        match decode_text(s@) {
            Ok(v) => r matches Ok(value) && value@ == v,
            Err(e) => r == Result::<Value>::Err(e),
        },
{
    let mut deserializer = Deserializer::from_str(s);
    let value = deserializer.deserialize_any()?;
    deserializer.end()?;
    Ok(value)
}

} // verus!
