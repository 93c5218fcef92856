use vstd::prelude::*;
use vstd::string::StringExecFns;

use crate::data::{escape_char, escape_chars, escape_one, spec_escape_code};
use crate::de::grammar::{text_word, type_key};
use crate::err::{Error, ErrorView};
use crate::ser::format::{
    bool_word, code_open, decimal, digit_char, is_type_seed, seeds_complete, seeds_fields,
    seeds_out, seeds_text,
    signed_decimal, value_of, Seeds,
};
use crate::text::{chars_of, push_char, str_eq};

verus! {

/// Writes values in the CQ code format into a growing text.
#[derive(Debug, Clone)]
pub struct CQSerializer {
    pub(crate) output: String,
}

impl Default for CQSerializer {
    /// A writer with nothing written yet.
    fn default() -> (r: CQSerializer)
        ensures
            r.out() == Seq::<char>::empty(),
    {
        CQSerializer { output: String::new() }
    }
}

/// Writes the decimal digits of `n` after `out`.
fn push_decimal(out: &mut String, n: u64)
    ensures
        final(out)@ == old(out)@ + decimal(n as nat),
    decreases n,
{
    if n >= 10 {
        push_decimal(out, n / 10);
    }
    let d: u8 = (n % 10) as u8;
    let c = (48u8 + d) as char;
    assert(c == digit_char(d as int));
    push_char(out, c);
    proof {
        if n >= 10 {
            assert(decimal(n as nat) == decimal((n / 10) as nat).push(digit_char((n % 10) as int)));
        } else {
            assert(decimal(n as nat) == seq![digit_char(n as int)]);
        }
    }
}

impl CQSerializer {
    /// What has been written so far.
    pub closed spec fn out(&self) -> Seq<char> {
        self.output@
    }

    /// Writes `=` and then `dis` as it stands.
    pub fn append_value_display(&mut self, dis: &str)
        ensures
            final(self).out() == old(self).out() + seq!['='] + dis@,
    {
        push_char(&mut self.output, '=');
        self.output.append(dis);
    }

    /// Writes `text` as it stands.
    pub fn append_raw(&mut self, text: &str)
        ensures
            final(self).out() == old(self).out() + text@,
    {
        self.output.append(text);
    }

    /// Writes a character, escaped (`&amp;`, `&#91;`, `&#93;`, `&#44;` for `&`, `[`, `]`, `,`).
    pub fn push_char(&mut self, c: char)
        ensures
            final(self).out() == old(self).out() + escape_one(c),
    {
        if let Some(code) = escape_char(c) {
            push_char(&mut self.output, '&');
            self.output.append(code);
            push_char(&mut self.output, ';');
            assert(final(self).out() =~= old(self).out() + escape_one(c)) by {
                assert(spec_escape_code(c) == Some(code@));
            }
        } else {
            push_char(&mut self.output, c);
            assert(final(self).out() =~= old(self).out() + escape_one(c));
        }
    }

    /// The text written.
    pub fn finish(self) -> (s: String)
        ensures
            s@ == self.out(),
    {
        self.output
    }

    /// Writes `true` or `false`.
    pub fn serialize_bool(&mut self, v: bool)
        ensures
            final(self).out() == old(self).out() + bool_word(v),
    {
        proof {
            reveal_strlit("true");
            reveal_strlit("false");
            assert("true"@ =~= bool_word(true));
            assert("false"@ =~= bool_word(false));
        }
        self.output.append(if v {
            "true"
        } else {
            "false"
        });
    }

    /// Writes a signed integer in decimal.
    pub fn serialize_i64(&mut self, v: i64)
        ensures
            final(self).out() == old(self).out() + signed_decimal(v as int),
    {
        if v < 0 {
            push_char(&mut self.output, '-');
            let m: u64 = (0 - (v as i128)) as u64;
            push_decimal(&mut self.output, m);
            assert(final(self).out() =~= old(self).out() + signed_decimal(v as int));
        } else {
            push_decimal(&mut self.output, v as u64);
        }
    }

    /// Writes an unsigned integer in decimal.
    pub fn serialize_u64(&mut self, v: u64)
        ensures
            final(self).out() == old(self).out() + decimal(v as nat),
    {
        push_decimal(&mut self.output, v);
    }

    /// Writes a character, escaped.
    pub fn serialize_char(&mut self, v: char)
        ensures
            final(self).out() == old(self).out() + escape_one(v),
    {
        self.push_char(v);
    }

    /// Writes a text, every character escaped.
    pub fn serialize_str(&mut self, v: &str)
        ensures
            final(self).out() == old(self).out() + escape_chars(v@),
    {
        let chars = chars_of(v);
        let mut i: usize = 0;
        while i < chars.len()
            invariant
                i <= chars@.len(),
                chars@ == v@,
                self.out() == old(self).out() + escape_chars(chars@.take(i as int)),
            decreases chars@.len() - i,
        {
            self.push_char(chars[i]);
            assert(chars@.take(i + 1).drop_last() =~= chars@.take(i as int));
            i = i + 1;
        }
        assert(chars@.take(chars@.len() as int) =~= chars@);
    }
}

/// Writes one code from its type and its key–value pairs, given one after the other:
/// plain text where the type is `text` (only the values under the key `text` are written),
/// else `[CQ:type,key=value,...]`.
#[derive(Debug)]
pub struct StructSerializer {
    pub(crate) is_text: bool,
    pub(crate) last_key: Option<String>,
}

/// A text, if any, taken as its characters.
pub open spec fn opt_view(o: Option<String>) -> Option<Seq<char>> {
    match o {
        Some(s) => Some(s@),
        None => None,
    }
}

impl StructSerializer {
    /// Whether the code is plain message text.
    pub closed spec fn text_mode(&self) -> bool {
        self.is_text
    }

    /// The key last given to a plain text code.
    pub closed spec fn key(&self) -> Option<Seq<char>> {
        opt_view(self.last_key)
    }

    /// Starts a code of type `ty` (as written out): `[CQ:type` is written unless the type
    /// is `text`.
    pub fn new(ty: &str, ser: &mut CQSerializer) -> (r: StructSerializer)
        ensures
            r.text_mode() == (ty@ == text_word()),
            r.key() is None,
            final(ser).out() == if ty@ == text_word() {
                old(ser).out()
            } else {
                old(ser).out() + code_open() + ty@
            },
    {
        proof {
            reveal_strlit("text");
            reveal_strlit("[CQ:");
            assert("text"@ =~= text_word());
            assert("[CQ:"@ =~= code_open());
        }
        if str_eq(ty, "text") {
            StructSerializer { is_text: true, last_key: None }
        } else {
            ser.output.append("[CQ:");
            ser.output.append(ty);
            assert(final(ser).out() =~= old(ser).out() + code_open() + ty@);
            StructSerializer { is_text: false, last_key: None }
        }
    }

    /// Gives the next key: `,key` (escaped) inside a code; for plain text the key is kept to
    /// decide whether its value is written.
    pub fn serialize_key(&mut self, ser: &mut CQSerializer, key: &str)
        ensures
            final(self).text_mode() == old(self).text_mode(),
            if old(self).text_mode() {
                final(self).key() == Some(key@) && final(ser).out() == old(ser).out()
            } else {
                final(self).key() == old(self).key() && final(ser).out() == old(ser).out()
                    + seq![','] + escape_chars(key@)
            },
    {
        if !self.is_text {
            push_char(&mut ser.output, ',');
            ser.serialize_str(key);
            assert(final(ser).out() =~= old(ser).out() + seq![','] + escape_chars(key@));
        } else {
            self.last_key = Some(key.to_owned());
        }
    }

    /// Gives the value (as written out) of the key just given: `=value` inside a code; for
    /// plain text the value itself, where the key is `text`.
    pub fn serialize_value(&mut self, ser: &mut CQSerializer, value: &str)
        ensures
            *final(self) == *old(self),
            final(ser).out() == if old(self).text_mode() {
                if old(self).key() == Some(text_word()) {
                    old(ser).out() + value@
                } else {
                    old(ser).out()
                }
            } else {
                old(ser).out() + seq!['='] + value@
            },
    {
        proof {
            reveal_strlit("text");
            assert("text"@ =~= text_word());
        }
        if self.is_text {
            let is_text_key = match &self.last_key {
                Some(k) => str_eq(k.as_str(), "text"),
                None => false,
            };
            if is_text_key {
                ser.append_raw(value);
            }
        } else {
            ser.append_value_display(value);
        }
    }

    /// Ends the code: `]` unless it is plain text.
    pub fn end(self, ser: &mut CQSerializer) -> (r: Result<(), Error>)
        ensures
            r is Ok,
            final(ser).out() == if self.text_mode() {
                old(ser).out()
            } else {
                old(ser).out() + seq![']']
            },
    {
        if !self.is_text {
            push_char(&mut ser.output, ']');
        }
        Ok(())
    }
}

/// The pairs, each text taken as its characters.
pub open spec fn seeds_view(v: Seq<(String, Option<String>)>) -> Seeds {
    v.map_values(|p: (String, Option<String>)| (p.0@, opt_view(p.1)))
}

/// The error for a code whose pairs hold no `$type`.
pub open spec fn missing_type_error() -> ErrorView {
    ErrorView::Custom(
        seq![
            'm', 'i', 's', 's', 'i', 'n', 'g', ' ', 'f', 'i', 'e', 'l', 'd', ' ', '`', '$', 't',
            'y', 'p', 'e', '`'
        ],
    )
}

/// Gathers the key–value pairs of one code (its type under the key `$type`), then writes
/// the code.
pub struct MapSerializer {
    seeds: Vec<(String, Option<String>)>,
}

impl MapSerializer {
    /// The pairs gathered so far.
    pub closed spec fn seeds(&self) -> Seeds {
        seeds_view(self.seeds@)
    }

    /// Nothing gathered yet.
    pub fn new() -> (r: MapSerializer)
        ensures
            r.seeds() == Seeds::empty(),
    {
        let r = MapSerializer { seeds: Vec::new() };
        assert(r.seeds() =~= Seeds::empty());
        r
    }

    /// Gathers a key (as plain text), its value still to come.
    pub fn serialize_key(&mut self, key: String)
        ensures
            final(self).seeds() == old(self).seeds().push((key@, None)),
    {
        self.seeds.push((key, None));
        assert(final(self).seeds() =~= old(self).seeds().push((key@, None::<Seq<char>>)));
    }

    /// Gives the last key gathered its value (as written out).
    pub fn serialize_value(&mut self, value: String)
        requires
            old(self).seeds().len() > 0,
        ensures
            final(self).seeds() == old(self).seeds().update(
                old(self).seeds().len() - 1,
                (old(self).seeds().last().0, Some(value@)),
            ),
    {
        let last = self.seeds.pop().unwrap();
        self.seeds.push((last.0, Some(value)));
        assert(final(self).seeds() =~= old(self).seeds().update(
            old(self).seeds().len() - 1,
            (old(self).seeds().last().0, Some(value@)),
        ));
    }

    /// The position of the first pair with the key `$type`; the number of pairs where none has it.
    fn type_index(&self) -> (idx: usize)
        ensures
            idx <= self.seeds().len(),
            idx < self.seeds().len() ==> is_type_seed(self.seeds(), idx as int),
            idx == self.seeds().len() ==> forall|k: int| !is_type_seed(self.seeds(), k),
    {
        let ghost sd = self.seeds();
        let n = self.seeds.len();
        proof {
            reveal_strlit("$type");
            assert("$type"@ =~= type_key());
        }
        let tk = "$type".to_owned();
        let mut idx: usize = 0;
        while idx < n && !(self.seeds[idx].0 == tk)
            invariant
                n == self.seeds@.len(),
                sd == self.seeds(),
                tk@ == type_key(),
                idx <= n,
                forall|j: int| 0 <= j < idx ==> sd[j].0 != type_key(),
            decreases n - idx,
        {
            assert(sd[idx as int].0 == self.seeds@[idx as int].0@);
            idx = idx + 1;
        }
        if idx < n {
            assert(sd[idx as int].0 == self.seeds@[idx as int].0@);
        }
        idx
    }

    /// Whether every value that `end` reads has been given (see `seeds_complete`).
    pub fn is_complete(&self) -> (r: bool)
        ensures
            r == seeds_complete(self.seeds()),
    {
        let ghost sd = self.seeds();
        let n = self.seeds.len();
        let idx = self.type_index();
        if idx == n {
            return true;
        }
        assert(sd[idx as int] == (self.seeds@[idx as int].0@, opt_view(self.seeds@[idx as int].1)));
        let ty = match &self.seeds[idx].1 {
            Some(t) => t,
            None => {
                assert(!seeds_complete(sd));
                return false;
            },
        };
        proof {
            reveal_strlit("text");
            assert("text"@ =~= text_word());
        }
        let ty_text = str_eq(ty.as_str(), "text");
        let mut i: usize = 0;
        while i < n
            invariant
                n == self.seeds@.len(),
                sd == self.seeds(),
                is_type_seed(sd, idx as int),
                sd[idx as int].1 == Some(ty@),
                ty_text == (ty@ == text_word()),
                i <= n,
                forall|j: int|
                    0 <= j < i && j != idx && (!ty_text || sd[j].0 == text_word()) ==> (
                    #[trigger] sd[j]).1 is Some,
            decreases n - i,
        {
            proof {
                reveal_strlit("text");
                assert("text"@ =~= text_word());
            }
            assert(sd[i as int] == (self.seeds@[i as int].0@, opt_view(self.seeds@[i as int].1)));
            if i != idx && (!ty_text || str_eq(self.seeds[i].0.as_str(), "text")) {
                if self.seeds[i].1.is_none() {
                    assert(!seeds_complete(sd));
                    return false;
                }
            }
            i = i + 1;
        }
        proof {
            assert forall|k: int| #[trigger] is_type_seed(sd, k) implies k == idx by {
                if k < idx {
                    assert(sd[k].0 != type_key());
                } else if k > idx {
                    assert(sd[idx as int].0 != type_key());
                }
            }
        }
        true
    }

    /// Writes the code: the value of the first `$type` pair is its type, every other pair
    /// a parameter in the order gathered. Where no pair has the key `$type` nothing is
    /// written and the error is `missing field `$type``.
    pub fn end(self, ser: &mut CQSerializer) -> (r: Result<(), Error>)
        requires
            seeds_complete(self.seeds()),
        ensures
            if exists|i: int| is_type_seed(self.seeds(), i) {
                r is Ok && final(ser).out() == old(ser).out() + seeds_out(
                    self.seeds(),
                    choose|i: int| is_type_seed(self.seeds(), i),
                )
            } else {
                r matches Err(e) && e@ == missing_type_error() && final(ser).out() == old(
                    ser,
                ).out()
            },
    {
        let ghost sd = self.seeds();
        let n = self.seeds.len();
        let idx = self.type_index();
        if idx == n {
            proof {
                reveal_strlit("missing field `$type`");
                assert("missing field `$type`"@ =~= match missing_type_error() {
                    ErrorView::Custom(m) => m,
                    _ => Seq::empty(),
                });
            }
            return Err(Error::Custom("missing field `$type`".to_owned()));
        }
        assert(is_type_seed(sd, idx as int));
        proof {
            let c = choose|i: int| is_type_seed(sd, i);
            assert(c == idx) by {
                if c < idx {
                    assert(sd[c].0 != type_key());
                } else if c > idx {
                    assert(sd[idx as int].0 != type_key());
                }
            }
        }
        assert(sd[idx as int] == (self.seeds@[idx as int].0@, opt_view(self.seeds@[idx as int].1)));
        let ty = self.seeds[idx].1.as_ref().unwrap();
        let ghost tyv = value_of(sd[idx as int].1);
        assert(ty@ == tyv);
        let ghost base = ser.out();
        let mut st = StructSerializer::new(ty.as_str(), ser);
        proof {
            reveal_strlit("text");
            assert("text"@ =~= text_word());
        }
        let mut i: usize = 0;
        while i < n
            invariant
                n == self.seeds@.len(),
                sd == self.seeds(),
                0 <= idx < n,
                i <= n,
                is_type_seed(sd, idx as int),
                sd[idx as int].1 == Some(tyv),
                seeds_complete(sd),
                st.text_mode() == (tyv == text_word()),
                ser.out() == if tyv == text_word() {
                    base + seeds_text(sd, idx as int, i as nat)
                } else {
                    base + code_open() + tyv + seeds_fields(sd, idx as int, i as nat)
                },
            decreases n - i,
        {
            proof {
                reveal_strlit("text");
                assert("text"@ =~= text_word());
            }
            if i != idx {
                assert(sd[i as int] == (self.seeds@[i as int].0@, opt_view(self.seeds@[i as int].1)));
                let key = &self.seeds[i].0;
                assert(sd[i as int].0 == key@);
                st.serialize_key(ser, key.as_str());
                if !st.is_text {
                    let value = self.seeds[i].1.as_ref().unwrap();
                    assert(sd[i as int].1 == Some(value@));
                    ser.append_value_display(value.as_str());
                    assert(ser.out() =~= base + code_open() + tyv + seeds_fields(
                        sd,
                        idx as int,
                        (i + 1) as nat,
                    ));
                } else {
                    if str_eq(key.as_str(), "text") {
                        let value = self.seeds[i].1.as_ref().unwrap();
                        assert(sd[i as int].1 == Some(value@));
                        ser.append_raw(value.as_str());
                    }
                    assert(ser.out() =~= base + seeds_text(sd, idx as int, (i + 1) as nat));
                }
            } else {
                assert(seeds_text(sd, idx as int, (i + 1) as nat) == seeds_text(
                    sd,
                    idx as int,
                    i as nat,
                ) + Seq::<char>::empty());
                assert(seeds_fields(sd, idx as int, (i + 1) as nat) == seeds_fields(
                    sd,
                    idx as int,
                    i as nat,
                ) + Seq::<char>::empty());
                assert(seeds_text(sd, idx as int, (i + 1) as nat) =~= seeds_text(
                    sd,
                    idx as int,
                    i as nat,
                ));
                assert(seeds_fields(sd, idx as int, (i + 1) as nat) =~= seeds_fields(
                    sd,
                    idx as int,
                    i as nat,
                ));
            }
            i = i + 1;
        }
        let r = st.end(ser);
        assert(final(ser).out() =~= old(ser).out() + seeds_out(sd, idx as int));
        r
    }
}

} // verus!
