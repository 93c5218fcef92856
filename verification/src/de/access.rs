use vstd::prelude::*;

use crate::data::{entries_view, CQCode};
use crate::de::deserializer::{lemma_fits_ascii, opt_chars, CQDeserializer};
use crate::de::grammar::{
    code_prefix, spec_any, spec_escaped_string, spec_item, spec_peek_char, type_key, CodeView,
};
use crate::err::{Error, ErrorView};
use crate::text::str_eq;

verus! {

/// Reads the key–value pairs of one code, `[CQ:type,key=value,...]`, once its `[` is read:
/// first the type under the key `$type`, then each parameter.
pub struct CodeRaw {
    first: bool,
}

impl CodeRaw {
    /// Whether the type is still to be handed out.
    pub closed spec fn first(&self) -> bool {
        self.first
    }

    /// Starts on a code whose `[` has been read: the input must go on with `CQ:`, of which
    /// `CQ` is read. Else `ExpectedCodeType`, and the reader stays.
    pub fn create(de: &mut CQDeserializer) -> (r: Result<CodeRaw, Error>)
        ensures
            final(de).text() == old(de).text(),
            ({
                let s = old(de).text();
                let p = old(de).pos();
                if p + 3 <= s.len() && s.subrange(p, p + 3) == code_prefix() {
                    r matches Ok(raw) && raw.first() && final(de).pos() == p + 2
                } else {
                    r matches Err(e) && e@ == ErrorView::ExpectedCodeType && final(de).pos() == p
                }
            }),
    {
        proof {
            reveal_strlit("CQ:");
            assert("CQ:"@ =~= code_prefix());
        }
        let ghost rest = de.rest();
        let head = de.peek_str(3);
        proof {
            let s = de.text();
            let p = de.pos();
            if p + 3 <= s.len() && s.subrange(p, p + 3) == code_prefix() {
                assert(rest[0] == 'C' && rest[1] == 'Q' && rest[2] == ':');
                assert(forall|i: int| 0 <= i < 3 ==> (#[trigger] rest[i] as u32) < 0x80);
                lemma_fits_ascii(rest, 3, head@.len() as int);
                assert(head@ =~= code_prefix());
            }
        }
        if str_eq(head.as_str(), "CQ:") {
            proof {
                assert(head@.len() == 3);
                assert(rest.take(3) =~= code_prefix());
                assert(de.text().subrange(de.pos(), de.pos() + 3) =~= rest.take(3));
                assert(forall|i: int| 0 <= i < 2 ==> (#[trigger] rest[i] as u32) < 0x80);
            }
            let read = de.next_str(2);
            proof {
                lemma_fits_ascii(rest, 2, read@.len() as int);
            }
            Ok(CodeRaw { first: true })
        } else {
            Err(Error::ExpectedCodeType)
        }
    }

    /// The next key: `$type` while the type is still to be handed out, then the key of each
    /// `,key` in turn; `None` at the closing `]`.
    pub fn next_key(&mut self, de: &mut CQDeserializer) -> (r: Result<Option<String>, Error>)
        ensures
            final(de).text() == old(de).text(),
            old(de).pos() <= final(de).pos() <= final(de).text().len(),
            ({
                let s = old(de).text();
                let p = old(de).pos();
                match spec_peek_char(s, p) {
                    Err(ev) => r matches Err(e) && e@ == ev && final(de).pos() == p
                        && final(self).first() == old(self).first(),
                    Ok(c) => if c == ']' {
                        r matches Ok(None) && final(de).pos() == p && final(self).first() == old(
                            self,
                        ).first()
                    } else if c == ',' {
                        &&& final(self).first() == old(self).first()
                        &&& match spec_escaped_string(s, p + 1, Seq::empty()) {
                            Ok((k, j)) => r matches Ok(Some(x)) && x@ == k && final(de).pos() == j,
                            Err((ev, j)) => r matches Err(e) && e@ == ev && final(de).pos() == j,
                        }
                    } else if old(self).first() {
                        r matches Ok(Some(x)) && x@ == type_key() && final(de).pos() == p
                            && !final(self).first()
                    } else {
                        r matches Err(e) && e@ == ErrorView::ExpectedCodeComma && final(de).pos()
                            == p && final(self).first() == old(self).first()
                    },
                }
            }),
    {
        match de.peek_char()? {
            ']' => Ok(None),
            ',' => {
                de.next_char()?;
                let key = de.next_escaped_string()?;
                Ok(Some(key))
            },
            _ => {
                if self.first {
                    self.first = false;
                    proof {
                        reveal_strlit("$type");
                        assert("$type"@ =~= type_key());
                    }
                    Ok(Some("$type".to_owned()))
                } else {
                    Err(Error::ExpectedCodeComma)
                }
            },
        }
    }

    /// The value of the key just handed out: after a `=` (or `:`), any value as
    /// `CQDeserializer::next_any` reads it: the string, or `None` for a code or message
    /// text. Any other separator is `ExpectedCodeColon`.
    pub fn next_value(&mut self, de: &mut CQDeserializer) -> (r: Result<Option<String>, Error>)
        ensures
            final(self).first() == old(self).first(),
            final(de).text() == old(de).text(),
            old(de).pos() <= final(de).pos() <= final(de).text().len(),
            ({
                let s = old(de).text();
                let p = old(de).pos();
                match spec_peek_char(s, p) {
                    Err(ev) => r matches Err(e) && e@ == ev && final(de).pos() == p,
                    Ok(c) => if c == '=' || c == ':' {
                        match spec_any(s, p + 1) {
                            Ok((v, j)) => r matches Ok(x) && opt_chars(x) == v && final(de).pos()
                                == j,
                            Err((ev, j)) => r matches Err(e) && e@ == ev && final(de).pos() == j,
                        }
                    } else {
                        r matches Err(e) && e@ == ErrorView::ExpectedCodeColon && final(de).pos()
                            == p + 1
                    },
                }
            }),
    {
        self.next_value_start(de)?;
        de.next_any()
    }

    /// Reads the separator between a key and its value: `=` (or `:`). Any other character
    /// is read and is `ExpectedCodeColon`; at the end of the input, `Eof`.
    pub fn next_value_start(&mut self, de: &mut CQDeserializer) -> (r: Result<(), Error>)
        ensures
            final(self).first() == old(self).first(),
            final(de).text() == old(de).text(),
            0 <= old(de).pos() <= old(de).text().len(),
            match spec_peek_char(old(de).text(), old(de).pos()) {
                Err(ev) => r matches Err(e) && e@ == ev && final(de).pos() == old(de).pos(),
                Ok(c) => final(de).pos() == old(de).pos() + 1 && if c == '=' || c == ':' {
                    r is Ok
                } else {
                    r matches Err(e) && e@ == ErrorView::ExpectedCodeColon
                },
            },
    {
        match de.next_char()? {
            '=' | ':' => Ok(()),
            _ => Err(Error::ExpectedCodeColon),
        }
    }
}

/// Reads the parts of a message one after the other.
pub struct CodeSeq {}

impl CodeSeq {
    /// A reader of the parts of a message.
    pub fn new() -> (r: CodeSeq) {
        CodeSeq {  }
    }

    /// Whether a part of the message follows: the input goes on, and not with a `]`.
    pub fn has_next(&self, de: &CQDeserializer) -> (r: bool)
        ensures
            0 <= de.pos() <= de.text().len(),
            r == (de.pos() < de.text().len() && de.text()[de.pos()] != ']'),
    {
        match de.peek_char() {
            Ok(c) => c != ']',
            Err(_) => false,
        }
    }

    /// The next part of the message: `None` at the end of the input or at a `]`.
    pub fn next_element(&mut self, de: &mut CQDeserializer) -> (r: Result<Option<CQCode>, Error>)
        ensures
            final(de).text() == old(de).text(),
            old(de).pos() <= final(de).pos() <= final(de).text().len(),
            ({
                let s = old(de).text();
                let p = old(de).pos();
                if p >= s.len() || s[p] == ']' {
                    r matches Ok(None) && final(de).pos() == p
                } else {
                    match spec_item(s, p) {
                        Ok((c, j)) => r matches Ok(Some(x)) && x@ == c && x.wf() && final(de).pos()
                            == j,
                        Err((ev, j)) => r matches Err(e) && e@ == ev && final(de).pos() == j,
                    }
                }
            }),
    {
        if self.has_next(de) {
            let code = de.next_cq_code()?;
            Ok(Some(code))
        } else {
            Ok(None)
        }
    }
}

/// Hands out the pairs of a code already read as a map: first `$type` with the code's
/// type, then each parameter in order.
pub struct CQCodeAccess {
    cq_type: String,
    data: Vec<(String, String)>,
    taken: usize,
    current: Option<String>,
    first: bool,
}

impl CQCodeAccess {
    #[verifier::type_invariant]
    spec fn inv(&self) -> bool {
        self.taken <= self.data@.len()
    }

    /// The code whose pairs are handed out.
    pub closed spec fn code(&self) -> CodeView {
        (self.cq_type@, entries_view(self.data@))
    }

    /// How many parameters have been handed out.
    pub closed spec fn taken(&self) -> int {
        self.taken as int
    }

    /// The value of the parameter handed out last, while it is still to be read.
    pub closed spec fn current(&self) -> Option<Seq<char>> {
        opt_chars(self.current)
    }

    /// Whether `$type` is still to be handed out.
    pub closed spec fn first(&self) -> bool {
        self.first
    }

    /// Starts on the pairs of `code`.
    pub fn from_model(code: CQCode) -> (r: CQCodeAccess)
        ensures
            r.code() == code@,
            r.taken() == 0,
            r.current() is None,
            r.first(),
    {
        CQCodeAccess { cq_type: code.cq_type, data: code.data, taken: 0, current: None, first: true }
    }

    /// The type of the code.
    pub fn code_type(&self) -> (r: &String)
        ensures
            r@ == self.code().0,
    {
        &self.cq_type
    }

    /// The next key: `$type` first, then the key of each parameter in turn, its value kept
    /// to be read; `None` once all have been handed out.
    pub fn next_key(&mut self) -> (r: Option<String>)
        ensures
            final(self).code() == old(self).code(),
            0 <= old(self).taken() <= old(self).code().1.len(),
            if old(self).first() {
                &&& r matches Some(k) && k@ == type_key()
                &&& !final(self).first()
                &&& final(self).taken() == old(self).taken()
                &&& final(self).current() == old(self).current()
            } else if old(self).taken() < old(self).code().1.len() {
                &&& r matches Some(k) && k@ == old(self).code().1[old(self).taken()].0
                &&& !final(self).first()
                &&& final(self).taken() == old(self).taken() + 1
                &&& final(self).current() == Some(old(self).code().1[old(self).taken()].1)
            } else {
                &&& r is None
                &&& final(self).first() == old(self).first()
                &&& final(self).taken() == old(self).taken()
                &&& final(self).current() == old(self).current()
            },
    {
        proof {
            use_type_invariant(&*self);
        }
        if self.first {
            self.first = false;
            proof {
                reveal_strlit("$type");
                assert("$type"@ =~= type_key());
            }
            Some("$type".to_owned())
        } else if self.taken < self.data.len() {
            let key = self.data[self.taken].0.clone();
            let value = self.data[self.taken].1.clone();
            self.current = Some(value);
            self.taken = self.taken + 1;
            Some(key)
        } else {
            None
        }
    }

    /// The value of the key handed out last: the parameter's value, or the code's type
    /// after `$type`.
    pub fn next_value(&mut self) -> (r: String)
        ensures
            final(self).code() == old(self).code(),
            final(self).taken() == old(self).taken(),
            final(self).first() == old(self).first(),
            final(self).current() is None,
            r@ == match old(self).current() {
                Some(v) => v,
                None => old(self).code().0,
            },
    {
        proof {
            use_type_invariant(&*self);
        }
        let r = match &self.current {
            Some(v) => v.clone(),
            None => self.cq_type.clone(),
        };
        self.current = None;
        r
    }
}

} // verus!
