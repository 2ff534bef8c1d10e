//! Writing: a text that grows at its end, and a writer for each kind of
//! token.

use crate::decimal::{decimal, digit_char, signed_decimal};
use crate::error::Result;
use crate::value::{
    items_view, lemma_items_view_push, lemma_pairs_view_push, pairs_view, SpecValue, Value,
};
use crate::wire::{
    encode_bool, encode_int, encode_items, encode_newtype_variant, encode_null, encode_number,
    encode_pairs, encode_str, encode_value, lemma_encode_items_push, lemma_encode_pairs_push,
};
use vstd::prelude::*;
use vstd::string::*;

verus! {

/// The text written so far. Every call adds to its end and none changes
/// what was written before.
pub struct Serializer {
    output: String,
}

impl View for Serializer {
    type V = Seq<char>;

    /// The text written so far.
    closed spec fn view(&self) -> Seq<char> {
        self.output@
    }
}

/// The text of one digit.
fn digit_text(d: u64) -> (s: &'static str)
    requires
        d < 10,
    ensures
        s@ == seq![digit_char(d as nat)],
{
    proof {
        reveal_strlit("0");
        reveal_strlit("1");
        reveal_strlit("2");
        reveal_strlit("3");
        reveal_strlit("4");
        reveal_strlit("5");
        reveal_strlit("6");
        reveal_strlit("7");
        reveal_strlit("8");
        reveal_strlit("9");
    }
    let s = if d == 0 {
        "0"
    } else if d == 1 {
        "1"
    } else if d == 2 {
        "2"
    } else if d == 3 {
        "3"
    } else if d == 4 {
        "4"
    } else if d == 5 {
        "5"
    } else if d == 6 {
        "6"
    } else if d == 7 {
        "7"
    } else if d == 8 {
        "8"
    } else {
        "9"
    };
    assert(s@ =~= seq![digit_char(d as nat)]);
    s
}

/// `char::to_string` of std: the string that holds the one character and
/// nothing else.
#[verifier::external_body]
fn char_to_string(c: char) -> (s: String)
    ensures
        s@ == seq![c],
{
    c.to_string()
}

impl Serializer {
    /// A serializer that has written nothing yet.
    pub fn new() -> (serializer: Self)
        ensures
            serializer@ == Seq::<char>::empty(),
    {
        Serializer { output: String::new() }
    }

    /// Hands out the text that was written.
    pub fn into_string(self) -> (output: String)
        ensures
            output@ == self@,
    {
        self.output
    }

    /// Writes `text` as it stands.
    fn write(&mut self, text: &str)
        ensures
            final(self)@ == old(self)@ + text@,
    {
        self.output.append(text);
    }

    /// Writes `n` in base ten.
    fn write_decimal(&mut self, n: u64)
        ensures
            final(self)@ == old(self)@ + decimal(n as nat),
        decreases n,
    {
        if n >= 10 {
            self.write_decimal(n / 10);
        }
        self.write(digit_text(n % 10));
        proof {
            if n >= 10 {
                assert(old(self)@ + decimal((n / 10) as nat) + seq![digit_char((n % 10) as nat)]
                    =~= old(self)@ + decimal(n as nat));
            }
        }
    }

    /// Writes a boolean: `T` for true, `F` for false.
    pub fn serialize_bool(&mut self, value: bool) -> (r: Result<()>)
        ensures
            r is Ok,
            final(self)@ == old(self)@ + encode_bool(value),
    {
        proof {
            reveal_strlit("T");
            reveal_strlit("F");
        }
        self.write(
            if value {
                "T"
            } else {
                "F"
            },
        );
        proof {
            assert(self@ =~= old(self)@ + encode_bool(value));
        }
        Ok(())
    }

    /// Writes a number token around `text`, which is the number as the
    /// caller has it in text: `i`, the text, `e`. The text is not looked at.
    pub fn serialize_number(&mut self, text: &str) -> (r: Result<()>)
        ensures
            r is Ok,
            final(self)@ == old(self)@ + encode_number(text@),
    {
        proof {
            reveal_strlit("i");
            reveal_strlit("e");
        }
        self.write("i");
        self.write(text);
        self.write("e");
        proof {
            assert(self@ =~= old(self)@ + encode_number(text@));
        }
        Ok(())
    }

    /// Writes an integer token: `i`, the number in base ten, `e`.
    pub fn serialize_u64(&mut self, value: u64) -> (r: Result<()>)
        ensures
            r is Ok,
            final(self)@ == old(self)@ + encode_int(value as int),
    {
        proof {
            reveal_strlit("i");
            reveal_strlit("e");
        }
        self.write("i");
        self.write_decimal(value);
        self.write("e");
        proof {
            assert(self@ =~= old(self)@ + encode_int(value as int));
        }
        Ok(())
    }

    /// Writes an integer token.
    pub fn serialize_u32(&mut self, value: u32) -> (r: Result<()>)
        ensures
            r is Ok,
            final(self)@ == old(self)@ + encode_int(value as int),
    {
        self.serialize_u64(value as u64)
    }

    /// Writes an integer token.
    pub fn serialize_u16(&mut self, value: u16) -> (r: Result<()>)
        ensures
            r is Ok,
            final(self)@ == old(self)@ + encode_int(value as int),
    {
        self.serialize_u64(value as u64)
    }

    /// Writes an integer token.
    pub fn serialize_u8(&mut self, value: u8) -> (r: Result<()>)
        ensures
            r is Ok,
            final(self)@ == old(self)@ + encode_int(value as int),
    {
        self.serialize_u64(value as u64)
    }

    /// Writes an integer token: `i`, `-` if the number is negative, the
    /// number in base ten, `e`.
    pub fn serialize_i64(&mut self, value: i64) -> (r: Result<()>)
        ensures
            r is Ok,
            final(self)@ == old(self)@ + encode_int(value as int),
    {
        proof {
            reveal_strlit("i");
            reveal_strlit("-");
            reveal_strlit("e");
        }
        self.write("i");
        if value < 0 {
            self.write("-");
            let magnitude: u64 = if value == i64::MIN {
                0x8000_0000_0000_0000
            } else {
                (-value) as u64
            };
            self.write_decimal(magnitude);
        } else {
            self.write_decimal(value as u64);
        }
        self.write("e");
        proof {
            assert(self@ =~= old(self)@ + encode_int(value as int));
        }
        Ok(())
    }

    /// Writes an integer token.
    pub fn serialize_i32(&mut self, value: i32) -> (r: Result<()>)
        ensures
            r is Ok,
            final(self)@ == old(self)@ + encode_int(value as int),
    {
        self.serialize_i64(value as i64)
    }

    /// Writes an integer token.
    pub fn serialize_i16(&mut self, value: i16) -> (r: Result<()>)
        ensures
            r is Ok,
            final(self)@ == old(self)@ + encode_int(value as int),
    {
        self.serialize_i64(value as i64)
    }

    /// Writes an integer token.
    pub fn serialize_i8(&mut self, value: i8) -> (r: Result<()>)
        ensures
            r is Ok,
            final(self)@ == old(self)@ + encode_int(value as int),
    {
        self.serialize_i64(value as i64)
    }

    /// Writes a string token: the length of the string in bytes of UTF-8,
    /// `:`, and the string as it stands, with nothing escaped.
    pub fn serialize_str(&mut self, value: &str) -> (r: Result<()>)
        ensures
            r is Ok,
            final(self)@ == old(self)@ + encode_str(value@),
    {
        proof {
            reveal_strlit(":");
        }
        let length = value.as_bytes().len();
        self.write_decimal(length as u64);
        self.write(":");
        self.write(value);
        proof {
            assert(self@ =~= old(self)@ + encode_str(value@));
        }
        Ok(())
    }

    /// Writes a character as the string that holds it.
    pub fn serialize_char(&mut self, value: char) -> (r: Result<()>)
        ensures
            r is Ok,
            final(self)@ == old(self)@ + encode_str(seq![value]),
    {
        let text = char_to_string(value);
        self.serialize_str(text.as_str())
    }

    /// Writes the null token, `N`.
    pub fn serialize_unit(&mut self) -> (r: Result<()>)
        ensures
            r is Ok,
            final(self)@ == old(self)@ + encode_null(),
    {
        proof {
            reveal_strlit("N");
        }
        self.write("N");
        proof {
            assert(self@ =~= old(self)@ + encode_null());
        }
        Ok(())
    }

    /// Writes a missing value, which is the null token.
    pub fn serialize_none(&mut self) -> (r: Result<()>)
        ensures
            r is Ok,
            final(self)@ == old(self)@ + encode_null(),
    {
        self.serialize_unit()
    }

    /// Writes a struct without fields, which is the null token.
    pub fn serialize_unit_struct(&mut self) -> (r: Result<()>)
        ensures
            r is Ok,
            final(self)@ == old(self)@ + encode_null(),
    {
        self.serialize_unit()
    }

    /// Writes an enum variant that carries nothing: its name as a string
    /// token, with no dictionary around it.
    pub fn serialize_unit_variant(&mut self, variant: &str) -> (r: Result<()>)
        ensures
            r is Ok,
            final(self)@ == old(self)@ + encode_str(variant@),
    {
        self.serialize_str(variant)
    }

    /// Opens a list: `l`.
    pub fn serialize_seq(&mut self) -> (r: Result<()>)
        ensures
            r is Ok,
            final(self)@ == old(self)@ + seq!['l'],
    {
        proof {
            reveal_strlit("l");
        }
        self.write("l");
        proof {
            assert(self@ =~= old(self)@ + seq!['l']);
        }
        Ok(())
    }

    /// Opens a tuple, which is a list.
    pub fn serialize_tuple(&mut self) -> (r: Result<()>)
        ensures
            r is Ok,
            final(self)@ == old(self)@ + seq!['l'],
    {
        self.serialize_seq()
    }

    /// Opens a tuple struct, which is a list.
    pub fn serialize_tuple_struct(&mut self) -> (r: Result<()>)
        ensures
            r is Ok,
            final(self)@ == old(self)@ + seq!['l'],
    {
        self.serialize_seq()
    }

    /// Opens a dictionary: `d`.
    pub fn serialize_map(&mut self) -> (r: Result<()>)
        ensures
            r is Ok,
            final(self)@ == old(self)@ + seq!['d'],
    {
        proof {
            reveal_strlit("d");
        }
        self.write("d");
        proof {
            assert(self@ =~= old(self)@ + seq!['d']);
        }
        Ok(())
    }

    /// Opens a struct, which is a dictionary.
    pub fn serialize_struct(&mut self) -> (r: Result<()>)
        ensures
            r is Ok,
            final(self)@ == old(self)@ + seq!['d'],
    {
        self.serialize_map()
    }

    /// Opens an enum variant that carries a row of values: `d`, the
    /// variant's name, `l`.
    pub fn serialize_tuple_variant(&mut self, variant: &str) -> (r: Result<()>)
        ensures
            r is Ok,
            final(self)@ == old(self)@ + seq!['d'] + encode_str(variant@) + seq!['l'],
    {
        self.serialize_map()?;
        self.serialize_str(variant)?;
        self.serialize_seq()
    }

    /// Opens an enum variant that carries named fields: `d`, the variant's
    /// name, `d`.
    pub fn serialize_struct_variant(&mut self, variant: &str) -> (r: Result<()>)
        ensures
            r is Ok,
            final(self)@ == old(self)@ + seq!['d'] + encode_str(variant@) + seq!['d'],
    {
        self.serialize_map()?;
        self.serialize_str(variant)?;
        self.serialize_map()
    }

    /// Closes a list or a dictionary: `e`.
    pub fn end(&mut self) -> (r: Result<()>)
        ensures
            r is Ok,
            final(self)@ == old(self)@ + seq!['e'],
    {
        proof {
            reveal_strlit("e");
        }
        self.write("e");
        proof {
            assert(self@ =~= old(self)@ + seq!['e']);
        }
        Ok(())
    }

    /// Closes an enum variant that was opened with its row of values or
    /// its named fields: `ee`, one for what the variant carries and one for
    /// the dictionary around it.
    pub fn end_variant(&mut self) -> (r: Result<()>)
        ensures
            r is Ok,
            final(self)@ == old(self)@ + seq!['e', 'e'],
    {
        proof {
            reveal_strlit("ee");
        }
        self.write("ee");
        proof {
            assert(self@ =~= old(self)@ + seq!['e', 'e']);
        }
        Ok(())
    }

    /// Writes a value: a list as `l`, its items and `e`; a dictionary as
    /// `d`, its keys and values in the order in which they stand, and `e`.
    pub fn serialize_value(&mut self, value: &Value) -> (r: Result<()>)
        ensures
            r is Ok,
            final(self)@ == old(self)@ + encode_value(value@),
        decreases value, 0int,
    {
        match value {
            Value::Null => self.serialize_unit(),
            Value::Bool(b) => self.serialize_bool(*b),
            Value::Unsigned(n) => self.serialize_u64(*n),
            Value::Signed(n) => self.serialize_i64(*n),
            Value::Str(s) => self.serialize_str(s),
            Value::List(items) => {
                self.serialize_seq()?;
                let mut i: usize = 0;
                while i < items.len()
                    invariant
                        i <= items.len(),
                        *value == Value::List(*items),
                        self@ == old(self)@ + seq!['l'] + encode_items(
                            items_view(items@.take(i as int)),
                        ),
                    decreases items.len() - i,
                {
                    proof {
                        assert(items@.take(i + 1) =~= items@.take(i as int).push(items@[i as int]));
                        lemma_items_view_push(items@.take(i as int), items@[i as int]);
                        lemma_encode_items_push(
                            items_view(items@.take(i as int)),
                            items@[i as int]@,
                        );
                        assert(decreases_to!(*value => value->List_0));
                        assert(decreases_to!(*items => items@[i as int]));
                    }
                    self.serialize_element(&items[i])?;
                    i += 1;
                }
                self.end()?;
                proof {
                    assert(items@.take(i as int) =~= items@);
                }
                Ok(())
            },
            Value::Dict(pairs) => {
                self.serialize_map()?;
                let mut i: usize = 0;
                while i < pairs.len()
                    invariant
                        i <= pairs.len(),
                        *value == Value::Dict(*pairs),
                        self@ == old(self)@ + seq!['d'] + encode_pairs(
                            pairs_view(pairs@.take(i as int)),
                        ),
                    decreases pairs.len() - i,
                {
                    proof {
                        assert(pairs@.take(i + 1) =~= pairs@.take(i as int).push(pairs@[i as int]));
                        lemma_pairs_view_push(pairs@.take(i as int), pairs@[i as int]);
                        lemma_encode_pairs_push(
                            pairs_view(pairs@.take(i as int)),
                            (pairs@[i as int].0@, pairs@[i as int].1@),
                        );
                        assert(decreases_to!(*value => value->Dict_0));
                        assert(decreases_to!(*pairs => pairs@[i as int]));
                        assert(decreases_to!(pairs@[i as int] => pairs@[i as int].0));
                        assert(decreases_to!(pairs@[i as int] => pairs@[i as int].1));
                    }
                    self.serialize_key(&pairs[i].0)?;
                    self.serialize_element(&pairs[i].1)?;
                    i += 1;
                }
                self.end()?;
                proof {
                    assert(pairs@.take(i as int) =~= pairs@);
                }
                Ok(())
            },
        }
    }

    /// Writes an item of a list, of a tuple or of a tuple struct.
    pub fn serialize_element(&mut self, value: &Value) -> (r: Result<()>)
        ensures
            r is Ok,
            final(self)@ == old(self)@ + encode_value(value@),
        decreases value, 1int,
    {
        self.serialize_value(value)
    }

    /// Writes a key of a dictionary.
    pub fn serialize_key(&mut self, key: &Value) -> (r: Result<()>)
        ensures
            r is Ok,
            final(self)@ == old(self)@ + encode_value(key@),
        decreases key, 1int,
    {
        self.serialize_value(key)
    }

    /// Writes a field of a struct: its name as a string token, then its
    /// value.
    pub fn serialize_field(&mut self, key: &str, value: &Value) -> (r: Result<()>)
        ensures
            r is Ok,
            final(self)@ == old(self)@ + encode_str(key@) + encode_value(value@),
    {
        self.serialize_str(key)?;
        self.serialize_value(value)
    }

    /// Writes a value that is there, which is the value.
    pub fn serialize_some(&mut self, value: &Value) -> (r: Result<()>)
        ensures
            r is Ok,
            final(self)@ == old(self)@ + encode_value(value@),
    {
        self.serialize_value(value)
    }

    /// Writes a struct around one value, which is the value.
    pub fn serialize_newtype_struct(&mut self, value: &Value) -> (r: Result<()>)
        ensures
            r is Ok,
            final(self)@ == old(self)@ + encode_value(value@),
    {
        self.serialize_value(value)
    }

    /// Writes an enum variant that carries one value: `d`, the variant's
    /// name, the value, `e`.
    pub fn serialize_newtype_variant(&mut self, variant: &str, value: &Value) -> (r: Result<()>)
        ensures
            r is Ok,
            final(self)@ == old(self)@ + encode_newtype_variant(variant@, encode_value(value@)),
    {
        self.serialize_map()?;
        self.serialize_str(variant)?;
        self.serialize_value(value)?;
        self.end()?;
        proof {
            assert(self@ =~= old(self)@ + encode_newtype_variant(
                variant@,
                encode_value(value@),
            ));
        }
        Ok(())
    }

    /// Writes bytes as a list of integers.
    pub fn serialize_bytes(&mut self, value: &[u8]) -> (r: Result<()>)
        ensures
            r is Ok,
            final(self)@ == old(self)@ + encode_value(SpecValue::List(bytes_as_items(value@))),
    {
        self.serialize_seq()?;
        let mut i: usize = 0;
        while i < value.len()
            invariant
                i <= value.len(),
                self@ == old(self)@ + seq!['l'] + encode_items(
                    bytes_as_items(value@.take(i as int)),
                ),
            decreases value.len() - i,
        {
            proof {
                assert(bytes_as_items(value@.take(i + 1)) =~= bytes_as_items(
                    value@.take(i as int),
                ).push(SpecValue::Unsigned(value@[i as int] as u64)));
                lemma_encode_items_push(
                    bytes_as_items(value@.take(i as int)),
                    SpecValue::Unsigned(value@[i as int] as u64),
                );
            }
            self.serialize_u8(value[i])?;
            i += 1;
        }
        self.end()?;
        proof {
            assert(value@.take(i as int) =~= value@);
        }
        Ok(())
    }
}

/// The bytes as the items of a list, each an integer without a sign.
pub open spec fn bytes_as_items(bytes: Seq<u8>) -> Seq<SpecValue> {
    Seq::new(bytes.len(), |i: int| SpecValue::Unsigned(bytes[i] as u64))
}

/// The text of a value.
pub fn to_string(value: &Value) -> (r: Result<String>)
    ensures
        r matches Ok(text) && text@ == encode_value(value@),
{
    let mut serializer = Serializer::new();
    serializer.serialize_value(value)?;
    proof {
        assert(Seq::<char>::empty() + encode_value(value@) =~= encode_value(value@));
    }
    Ok(serializer.into_string())
}

} // verus!
