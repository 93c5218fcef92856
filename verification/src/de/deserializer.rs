use vstd::prelude::*;

use crate::data::{parse_code, CQCode};
use crate::de::access::CodeRaw;
use crate::de::grammar::{
    code_prefix, find_char, find_delimiter, find_stop, int_error_kind_fits, is_i64_literal,
    lemma_escaped_string_bounds,
    lemma_find_char_bounds, literal_value, map_value_error, spec_any, spec_bool_word,
    spec_entries, spec_escaped_char, spec_escaped_string, spec_escaping, spec_item, spec_nested,
    spec_nested_entries, spec_peek_char, spec_peek_escaping, spec_text, text_code, text_word,
    type_key, CodeView, Failure,
};
use crate::err::{Error, ErrorView, IntErrorKind};
use crate::text::{
    chars_of, lemma_ascii_take, lemma_encode_take_grows, lemma_encode_take_step, push_char, str_eq,
    string_of, utf8_width,
};
use vstd::utf8::encode_utf8;

verus! {

/// What a read of one character gives, errors taken by their view.
pub open spec fn char_result(r: Result<char, Error>) -> Result<char, ErrorView> {
    match r {
        Ok(c) => Ok(c),
        Err(e) => Err(e@),
    }
}

/// What a read of a text gives, taken as characters.
pub open spec fn string_result(r: Result<String, Error>) -> Result<Seq<char>, ErrorView> {
    match r {
        Ok(s) => Ok(s@),
        Err(e) => Err(e@),
    }
}

/// `str::parse::<i64>`: by std's documentation, the text must be an optional `+` or `-`
/// followed by one or more ASCII digits, standing for a number within the range of `i64`;
/// the number is then the result. A failure comes with std's error and its kind (see
/// `IntErrorKind`), of which only what `int_error_kind_fits` says is claimed.
#[verifier::external_body]
fn parse_i64(s: &str) -> (r: Result<i64, (std::num::ParseIntError, IntErrorKind)>)
    ensures
        r is Ok <==> is_i64_literal(s@),
        r matches Ok(v) ==> v as int == literal_value(s@),
        r matches Err(e) ==> int_error_kind_fits(s@, e.1),
{
    match s.parse::<i64>() {
        Ok(v) => Ok(v),
        Err(e) => {
            let kind = match e.kind() {
                std::num::IntErrorKind::Empty => IntErrorKind::Empty,
                std::num::IntErrorKind::InvalidDigit => IntErrorKind::InvalidDigit,
                std::num::IntErrorKind::PosOverflow => IntErrorKind::PosOverflow,
                std::num::IntErrorKind::NegOverflow => IntErrorKind::NegOverflow,
                std::num::IntErrorKind::Zero => IntErrorKind::Zero,
                _ => IntErrorKind::Other,
            };
            Err((e, kind))
        },
    }
}

/// A text that must be exactly one character; any other text is
/// `MismatchedValueType(text, "char")`.
pub fn single_char(value: String) -> (r: Result<char, Error>)
    ensures
        if value@.len() == 1 {
            r matches Ok(c) && c == value@[0]
        } else {
            r matches Err(e) && e@ == ErrorView::MismatchedValueType(value@, seq!['c', 'h', 'a', 'r'])
        },
{
    let chars = chars_of(value.as_str());
    if chars.len() == 1 {
        Ok(chars[0])
    } else {
        proof {
            reveal_strlit("char");
            assert("char"@ =~= seq!['c', 'h', 'a', 'r']);
        }
        Err(Error::MismatchedValueType(value, "char".to_owned()))
    }
}

/// A text that may be missing, taken as characters.
pub open spec fn opt_chars(o: Option<String>) -> Option<Seq<char>> {
    match o {
        Some(t) => Some(t@),
        None => None,
    }
}

/// What kind of value starts at the reader's position: a code (`[` stands there), plain
/// message text (no `]`, `,` or `=` comes before the next `[` or the end), or a string.
#[derive(Debug, Clone, Copy, PartialEq, Eq, Structural)]
pub enum ValueKind {
    Code,
    Text,
    Str,
}

/// The kind of value that starts at `i` (`i` lies within the input).
pub open spec fn spec_value_kind(s: Seq<char>, i: int) -> ValueKind {
    if s[i] == '[' {
        ValueKind::Code
    } else {
        let d = find_delimiter(s, i);
        if d >= s.len() || s[d] == '[' {
            ValueKind::Text
        } else {
            ValueKind::Str
        }
    }
}

/// The first `n` characters of `s` are the longest prefix of `s` whose UTF-8 encoding takes
/// at most `max` bytes.
pub open spec fn fits_bytes(s: Seq<char>, n: int, max: int) -> bool {
    &&& 0 <= n <= s.len()
    &&& encode_utf8(s.take(n)).len() <= max
    &&& (n == s.len() || encode_utf8(s.take(n + 1)).len() > max)
}

/// Of a text that starts with `k` ASCII characters, the longest prefix within `k` bytes is
/// those `k` characters.
pub proof fn lemma_fits_ascii(s: Seq<char>, k: int, n: int)
    requires
        0 <= k <= s.len(),
        forall|i: int| 0 <= i < k ==> (#[trigger] s[i] as u32) < 0x80,
        fits_bytes(s, n, k),
    ensures
        n == k,
{
    lemma_ascii_take(s, k);
    if n < k {
        lemma_encode_take_grows(s, n + 1, k);
    } else if n > k {
        assert(s.take(0) =~= Seq::<char>::empty());
        lemma_encode_take_grows(s, 0, n);
    }
}

/// A reader of the CQ code format: the input and how much of it has been read.
pub struct CQDeserializer {
    chars: Vec<char>,
    pos: usize,
}

impl CQDeserializer {
    #[verifier::type_invariant]
    spec fn inv(&self) -> bool {
        self.pos <= self.chars@.len()
    }

    /// The whole input.
    pub closed spec fn text(&self) -> Seq<char> {
        self.chars@
    }

    /// How many characters of the input have been read.
    pub closed spec fn pos(&self) -> int {
        self.pos as int
    }

    /// The part of the input that is left to read.
    pub open spec fn rest(&self) -> Seq<char> {
        self.text().subrange(self.pos(), self.text().len() as int)
    }

    /// A reader at the start of `input`.
    pub fn new(input: &str) -> (d: CQDeserializer)
        ensures
            d.text() == input@,
            d.pos() == 0,
    {
        CQDeserializer { chars: chars_of(input), pos: 0 }
    }

    /// The first position at or after the reader's that holds `c`, or the input's length.
    fn find_from(&self, c: char) -> (r: usize)
        ensures
            r == find_char(self.text(), self.pos(), c),
            self.pos() <= r <= self.text().len(),
    {
        proof {
            use_type_invariant(self);
        }
        let mut i = self.pos;
        while i < self.chars.len() && self.chars[i] != c
            invariant
                self.pos <= i <= self.chars@.len(),
                find_char(self.text(), self.pos(), c) == find_char(self.text(), i as int, c),
            decreases self.chars@.len() - i,
        {
            i = i + 1;
        }
        i
    }

    /// Looks at the next character without reading it; `Eof` at the end of the input.
    pub fn peek_char(&self) -> (r: Result<char, Error>)
        ensures
            0 <= self.pos() <= self.text().len(),
            char_result(r) == spec_peek_char(self.text(), self.pos()),
    {
        proof {
            use_type_invariant(self);
        }
        if self.pos < self.chars.len() {
            Ok(self.chars[self.pos])
        } else {
            Err(Error::Eof)
        }
    }

    /// Reads the next character; `Eof` at the end of the input, which leaves the reader as
    /// it was.
    pub fn next_char(&mut self) -> (r: Result<char, Error>)
        ensures
            0 <= old(self).pos() <= old(self).text().len(),
            0 <= final(self).pos() <= final(self).text().len(),
            final(self).text() == old(self).text(),
            char_result(r) == spec_peek_char(old(self).text(), old(self).pos()),
            final(self).pos() == if r is Ok {
                old(self).pos() + 1
            } else {
                old(self).pos()
            },
    {
        proof {
            use_type_invariant(&*self);
        }
        if self.pos < self.chars.len() {
            let c = self.chars[self.pos];
            self.pos = self.pos + 1;
            Ok(c)
        } else {
            Err(Error::Eof)
        }
    }

    /// Looks at the input up to (not including) the next `until`, without reading it;
    /// `ExpectedDelimiter` where no `until` follows.
    pub fn peek_str_until(&self, until: char) -> (r: Result<String, Error>)
        ensures
            0 <= self.pos() <= self.text().len(),
            ({
                let e = find_char(self.text(), self.pos(), until);
                string_result(r) == if e < self.text().len() {
                    Ok(self.text().subrange(self.pos(), e))
                } else {
                    Err(ErrorView::ExpectedDelimiter)
                }
            }),
    {
        let e = self.find_from(until);
        if e < self.chars.len() {
            Ok(string_of(&self.chars, self.pos, e))
        } else {
            Err(Error::ExpectedDelimiter)
        }
    }

    /// Reads the input up to (not including) the next `until`; `ExpectedCodeComma` where
    /// no `until` follows, which leaves the reader as it was.
    pub fn next_str_until(&mut self, until: char) -> (r: Result<String, Error>)
        ensures
            final(self).text() == old(self).text(),
            ({
                let e = find_char(old(self).text(), old(self).pos(), until);
                &&& string_result(r) == if e < old(self).text().len() {
                    Ok(old(self).text().subrange(old(self).pos(), e))
                } else {
                    Err(ErrorView::ExpectedCodeComma)
                }
                &&& final(self).pos() == if r is Ok {
                    e
                } else {
                    old(self).pos()
                }
            }),
    {
        let e = self.find_from(until);
        if e < self.chars.len() {
            let result = string_of(&self.chars, self.pos, e);
            self.pos = e;
            Ok(result)
        } else {
            Err(Error::ExpectedCodeComma)
        }
    }

    /// How many characters from the reader's position make the longest stretch whose UTF-8
    /// encoding takes at most `max_len` bytes.
    fn byte_prefix_len(&self, max_len: usize) -> (n: usize)
        ensures
            self.pos() + n <= self.text().len(),
            fits_bytes(self.rest(), n as int, max_len as int),
    {
        proof {
            use_type_invariant(self);
        }
        let ghost rest = self.rest();
        let mut i = self.pos;
        let mut used: usize = 0;
        proof {
            assert(rest.take(0) =~= Seq::<char>::empty());
        }
        loop
            invariant
                rest == self.rest(),
                self.pos <= i <= self.chars@.len(),
                used <= max_len,
                used == encode_utf8(rest.take(i - self.pos)).len(),
            ensures
                self.pos <= i <= self.chars@.len(),
                used <= max_len,
                used == encode_utf8(rest.take(i - self.pos)).len(),
                i == self.chars@.len() || encode_utf8(rest.take(i - self.pos + 1)).len() > max_len,
            decreases self.chars@.len() - i,
        {
            if i >= self.chars.len() {
                break;
            }
            let w = utf8_width(self.chars[i]);
            proof {
                lemma_encode_take_step(rest, i - self.pos);
                assert(rest[i - self.pos] == self.chars@[i as int]);
            }
            if w > max_len - used {
                break;
            }
            used = used + w;
            i = i + 1;
        }
        i - self.pos
    }

    /// Looks at the longest stretch of the input, from the reader's position, that takes at
    /// most `max_len` bytes in UTF-8, without reading it: where `max_len` falls on a character
    /// boundary, exactly the first `max_len` bytes (all that is left, if fewer).
    pub fn peek_str(&self, max_len: usize) -> (s: String)
        ensures
            0 <= self.pos() <= self.text().len(),
            s@ == self.rest().take(s@.len() as int),
            fits_bytes(self.rest(), s@.len() as int, max_len as int),
    {
        proof {
            use_type_invariant(self);
        }
        let n = self.byte_prefix_len(max_len);
        assert(self.chars.len() == self.chars@.len());
        let s = string_of(&self.chars, self.pos, self.pos + n);
        assert(s@ == self.rest().take(n as int));
        s
    }

    /// Reads the longest stretch of the input, from the reader's position, that takes at
    /// most `max_len` bytes in UTF-8: where `max_len` falls on a character boundary, exactly
    /// the first `max_len` bytes (all that is left, if fewer).
    pub fn next_str(&mut self, max_len: usize) -> (s: String)
        ensures
            final(self).text() == old(self).text(),
            s@ == old(self).rest().take(s@.len() as int),
            fits_bytes(old(self).rest(), s@.len() as int, max_len as int),
            final(self).pos() == old(self).pos() + s@.len(),
    {
        proof {
            use_type_invariant(&*self);
        }
        let n = self.byte_prefix_len(max_len);
        assert(self.chars.len() == self.chars@.len());
        let s = string_of(&self.chars, self.pos, self.pos + n);
        assert(s@ == old(self).rest().take(n as int));
        self.pos = self.pos + n;
        s
    }

    /// Looks at an escape code at the reader's position (the text up to the next `;`),
    /// without reading it: the character it stands for.
    pub fn peek_escaping(&self) -> (r: Result<char, Error>)
        ensures
            0 <= self.pos() <= self.text().len(),
            char_result(r) == spec_peek_escaping(self.text(), self.pos()),
    {
        let code = self.peek_str_until(';')?;
        let ch = if let Some(ch) = parse_code(code.as_str()) {
            ch
        } else {
            return Err(Error::UnknownEscaping(code));
        };
        Ok(ch)
    }

    /// Looks at the next character without reading it; where it is `&`, the escape code
    /// is looked at from that `&` on.
    pub fn peek_escaped_char(&self) -> (r: Result<char, Error>)
        ensures
            0 <= self.pos() <= self.text().len(),
            char_result(r) == match spec_peek_char(self.text(), self.pos()) {
                Ok(c) => if c == '&' {
                    spec_peek_escaping(self.text(), self.pos())
                } else {
                    Ok(c)
                },
                Err(e) => Err(e),
            },
    {
        match self.peek_char()? {
            '&' => self.peek_escaping(),
            ch => Ok(ch),
        }
    }

    /// Reads an escape code that starts at the reader's position (just after its `&`) and
    /// its closing `;`: the character it stands for. Where no `;` follows the reader stays;
    /// where the code is unknown it stops at the `;`.
    pub fn next_escaping(&mut self) -> (r: Result<char, Error>)
        ensures
            final(self).text() == old(self).text(),
            old(self).pos() <= final(self).pos() <= final(self).text().len(),
            match spec_escaping(old(self).text(), old(self).pos()) {
                Ok((c, j)) => r matches Ok(x) && x == c && final(self).pos() == j,
                Err((ev, j)) => r matches Err(x) && x@ == ev && final(self).pos() == j,
            },
    {
        proof {
            use_type_invariant(&*self);
            lemma_find_char_bounds(self.text(), self.pos(), ';');
        }
        let code = self.next_str_until(';')?;
        let ch = if let Some(ch) = parse_code(code.as_str()) {
            ch
        } else {
            return Err(Error::UnknownEscaping(code));
        };
        self.next_char()?;
        Ok(ch)
    }

    /// Reads the next character, decoding it if it opens an escape (`&code;`).
    pub fn next_escaped_char(&mut self) -> (r: Result<char, Error>)
        ensures
            final(self).text() == old(self).text(),
            match spec_escaped_char(old(self).text(), old(self).pos()) {
                Ok((c, j)) => r matches Ok(x) && x == c && final(self).pos() == j,
                Err((ev, j)) => r matches Err(x) && x@ == ev && final(self).pos() == j,
            },
    {
        proof {
            use_type_invariant(&*self);
        }
        match self.next_char()? {
            '&' => self.next_escaping(),
            ch => Ok(ch),
        }
    }

    /// The next delimiter (`[`, `]`, `,` or `=`) in the rest of the input, if any.
    pub fn peek_delimiter(&self) -> (r: Option<char>)
        ensures
            0 <= self.pos() <= self.text().len(),
            ({
                let d = find_delimiter(self.text(), self.pos());
                r == if d < self.text().len() {
                    Some(self.text()[d])
                } else {
                    None::<char>
                }
            }),
    {
        proof {
            use_type_invariant(self);
        }
        let mut i = self.pos;
        while i < self.chars.len()
            invariant
                self.pos <= i <= self.chars@.len(),
                find_delimiter(self.text(), self.pos()) == find_delimiter(self.text(), i as int),
            decreases self.chars@.len() - i,
        {
            let ch = self.chars[i];
            if ch == '[' || ch == ']' || ch == ',' || ch == '=' {
                return Some(ch);
            }
            i = i + 1;
        }
        None
    }

    /// Reads the input, as it stands, up to the next `]`, `,` or `=` (or to its end).
    pub fn next_raw_str(&mut self) -> (s: String)
        ensures
            final(self).text() == old(self).text(),
            ({
                let e = find_stop(old(self).text(), old(self).pos());
                &&& s@ == old(self).text().subrange(old(self).pos(), e)
                &&& final(self).pos() == e
            }),
    {
        proof {
            use_type_invariant(&*self);
        }
        let mut i = self.pos;
        while i < self.chars.len() && !(self.chars[i] == ']' || self.chars[i] == ','
            || self.chars[i] == '=')
            invariant
                self.pos <= i <= self.chars@.len(),
                find_stop(self.text(), self.pos()) == find_stop(self.text(), i as int),
            decreases self.chars@.len() - i,
        {
            i = i + 1;
        }
        let s = string_of(&self.chars, self.pos, i);
        self.pos = i;
        s
    }

    /// Reads text up to the next `]`, `,` or `=`, decoding escapes (`&code;`). The input
    /// must hold such a delimiter: reaching its end is `Eof`.
    pub fn next_escaped_string(&mut self) -> (r: Result<String, Error>)
        ensures
            final(self).text() == old(self).text(),
            old(self).pos() <= final(self).pos() <= final(self).text().len(),
            match spec_escaped_string(old(self).text(), old(self).pos(), Seq::empty()) {
                Ok((t, j)) => r matches Ok(x) && x@ == t && final(self).pos() == j,
                Err((ev, j)) => r matches Err(x) && x@ == ev && final(self).pos() == j,
            },
    {
        proof {
            use_type_invariant(&*self);
        }
        let ghost s = self.text();
        let ghost p0 = self.pos();
        let mut out = String::new();
        loop
            invariant
                self.text() == s,
                s == old(self).text(),
                p0 == old(self).pos(),
                p0 <= self.pos <= self.chars@.len(),
                spec_escaped_string(s, p0, Seq::empty()) == spec_escaped_string(
                    s,
                    self.pos as int,
                    out@,
                ),
            decreases self.chars@.len() - self.pos,
        {
            if self.pos >= self.chars.len() {
                return Err(Error::Eof);
            }
            let ch = self.chars[self.pos];
            if ch == ']' || ch == ',' || ch == '=' {
                return Ok(out);
            }
            self.pos = self.pos + 1;
            if ch == '&' {
                let c = self.next_escaping()?;
                push_char(&mut out, c);
            } else {
                push_char(&mut out, ch);
            }
        }
    }

    /// Reads plain message text up to the next `[`, decoding escapes, as a code of type
    /// `text` that holds the text under the key `text`. The text must be followed by a
    /// code: reaching the end of the input is `Eof`.
    pub fn parse_text_msg(&mut self) -> (r: Result<CQCode, Error>)
        ensures
            final(self).text() == old(self).text(),
            old(self).pos() <= final(self).pos() <= final(self).text().len(),
            match spec_text(old(self).text(), old(self).pos(), Seq::empty()) {
                Ok((m, j)) => r matches Ok(c) && c@ == text_code(m) && c.wf() && final(self).pos()
                    == j,
                Err((ev, j)) => r matches Err(x) && x@ == ev && final(self).pos() == j,
            },
    {
        proof {
            use_type_invariant(&*self);
        }
        let ghost s = self.text();
        let ghost p0 = self.pos();
        let mut msg = String::new();
        loop
            invariant
                self.text() == s,
                s == old(self).text(),
                p0 == old(self).pos(),
                p0 <= self.pos <= self.chars@.len(),
                spec_text(s, p0, Seq::empty()) == spec_text(s, self.pos as int, msg@),
            ensures
                self.text() == s,
                p0 <= self.pos < self.chars@.len(),
                s[self.pos as int] == '[',
                spec_text(s, p0, Seq::empty()) == spec_text(s, self.pos as int, msg@),
            decreases self.chars@.len() - self.pos,
        {
            if self.pos >= self.chars.len() {
                return Err(Error::Eof);
            }
            let ch = self.chars[self.pos];
            if ch == '[' {
                break;
            }
            self.pos = self.pos + 1;
            if ch == '&' {
                let c = self.next_escaping()?;
                push_char(&mut msg, c);
            } else {
                push_char(&mut msg, ch);
            }
        }
        proof {
            reveal_strlit("text");
            assert("text"@ =~= text_word());
        }
        let mut data: Vec<(String, String)> = Vec::new();
        data.push(("text".to_owned(), msg));
        let code = CQCode { cq_type: "text".to_owned(), data };
        assert(code@.1 =~= seq![(text_word(), msg@)]);
        Ok(code)
    }

    /// The kind of value that starts at the reader's position; `Eof` at the end of the
    /// input.
    pub fn peek_value_kind(&self) -> (r: Result<ValueKind, Error>)
        ensures
            0 <= self.pos() <= self.text().len(),
            match r {
                Ok(k) => self.pos() < self.text().len() && k == spec_value_kind(
                    self.text(),
                    self.pos(),
                ),
                Err(e) => self.pos() >= self.text().len() && e@ == ErrorView::Eof,
            },
    {
        if self.peek_char()? == '[' {
            Ok(ValueKind::Code)
        } else {
            match self.peek_delimiter() {
                Some('[') | None => Ok(ValueKind::Text),
                _ => Ok(ValueKind::Str),
            }
        }
    }

    /// Reads any value, as a reader that takes whatever comes does: a code where a `[`
    /// stands, its closing `]` left to read; message text where no `]`, `,` or `=` comes
    /// before the next `[` or the end; else a string up to the next `]`, `,` or `=`. The
    /// string, or `None` for a code or message text.
    pub fn next_any(&mut self) -> (r: Result<Option<String>, Error>)
        ensures
            final(self).text() == old(self).text(),
            old(self).pos() <= final(self).pos() <= final(self).text().len(),
            match spec_any(old(self).text(), old(self).pos()) {
                Ok((v, j)) => r matches Ok(x) && opt_chars(x) == v && final(self).pos() == j,
                Err((ev, j)) => r matches Err(x) && x@ == ev && final(self).pos() == j,
            },
        decreases old(self).text().len() - old(self).pos(), 1int,
    {
        proof {
            use_type_invariant(&*self);
        }
        match self.peek_value_kind()? {
            ValueKind::Code => {
                self.next_nested()?;
                Ok(None)
            },
            ValueKind::Text => {
                self.parse_text_msg()?;
                Ok(None)
            },
            ValueKind::Str => {
                let v = self.next_escaped_string()?;
                Ok(Some(v))
            },
        }
    }

    /// Reads a code that stands as a value, from its `[` up to (not including) its `]`:
    /// `CQ:`, its type and its pairs, each read by `next_any`.
    fn next_nested(&mut self) -> (r: Result<(), Error>)
        requires
            old(self).pos() < old(self).text().len(),
            old(self).text()[old(self).pos()] == '[',
        ensures
            final(self).text() == old(self).text(),
            old(self).pos() <= final(self).pos() <= final(self).text().len(),
            match spec_nested(old(self).text(), old(self).pos()) {
                Ok(j) => r is Ok && final(self).pos() == j,
                Err((ev, j)) => r matches Err(x) && x@ == ev && final(self).pos() == j,
            },
        decreases old(self).text().len() - old(self).pos(), 0int,
    {
        proof {
            use_type_invariant(&*self);
        }
        let ghost s = self.text();
        let ghost p0 = self.pos();
        self.next_char()?;
        let mut raw = CodeRaw::create(self)?;
        proof {
            assert(s.subrange(p0 + 1, p0 + 4) == code_prefix());
            assert(s[p0 + 3] == s.subrange(p0 + 1, p0 + 4)[2]);
        }
        raw.next_key(self)?;
        raw.next_value_start(self)?;
        self.next_any()?;
        loop
            invariant
                self.text() == s,
                s == old(self).text(),
                p0 == old(self).pos(),
                p0 < self.pos() <= s.len(),
                spec_nested(s, p0) == spec_nested_entries(s, self.pos()),
            ensures
                self.text() == s,
                p0 < self.pos() < s.len(),
                spec_nested(s, p0) == Ok::<int, Failure>(self.pos()),
            decreases s.len() - self.pos(),
        {
            let c = self.peek_char()?;
            if c == ']' {
                break;
            }
            if c != ',' {
                return Err(Error::ExpectedCodeComma);
            }
            self.next_char()?;
            self.next_any()?;
            let sep = self.next_char()?;
            if sep != '=' && sep != ':' {
                return Err(Error::ExpectedCodeColon);
            }
            self.next_any()?;
        }
        Ok(())
    }

    /// Reads one part of a message: a code `[CQ:type,key=value,...]` where a `[` stands,
    /// else plain message text up to the next `[`.
    pub fn next_cq_code(&mut self) -> (r: Result<CQCode, Error>)
        ensures
            final(self).text() == old(self).text(),
            old(self).pos() <= final(self).pos() <= final(self).text().len(),
            match spec_item(old(self).text(), old(self).pos()) {
                Ok((c, j)) => r matches Ok(x) && x@ == c && x.wf() && final(self).pos() == j,
                Err((ev, j)) => r matches Err(x) && x@ == ev && final(self).pos() == j,
            },
    {
        proof {
            use_type_invariant(&*self);
        }
        let ghost s = self.text();
        let ghost p0 = self.pos();
        if self.peek_char()? == '[' {
            self.next_char()?;
            let mut raw = CodeRaw::create(self)?;
            proof {
                assert(s.subrange(p0 + 1, p0 + 4) == code_prefix());
                assert(s[p0 + 3] == s.subrange(p0 + 1, p0 + 4)[2]);
            }
            raw.next_key(self)?;
            let ty = raw.next_value(self)?;
            let ghost k0 = self.pos();
            let mut strings = ty.is_some();
            let mut code = CQCode {
                cq_type: match ty {
                    Some(t) => t,
                    None => String::new(),
                },
                data: Vec::new(),
            };
            assert(code@.1 =~= Seq::<(Seq<char>, Seq<char>)>::empty());
            proof {
                reveal_strlit("$type");
                assert("$type"@ =~= type_key());
            }
            loop
                invariant
                    self.text() == s,
                    s == old(self).text(),
                    p0 == old(self).pos(),
                    p0 < k0 <= self.pos() <= s.len(),
                    !raw.first(),
                    code.wf(),
                    "$type"@ == type_key(),
                    spec_item(s, p0) == match spec_entries(s, self.pos(), code@, strings) {
                        Err(e) => Err(e),
                        Ok((c, m)) => Ok((c, m + 1)),
                    },
                ensures
                    self.text() == s,
                    p0 < self.pos() < s.len(),
                    s[self.pos()] == ']',
                    spec_item(s, p0) == if strings {
                        Ok::<(CodeView, int), Failure>((code@, self.pos() + 1))
                    } else {
                        Err::<(CodeView, int), Failure>((map_value_error(), self.pos()))
                    },
                    code.wf(),
                decreases s.len() - self.pos(),
            {
                proof {
                    use_type_invariant(&*self);
                }
                let ghost p = self.pos();
                match raw.next_key(self)? {
                    None => break,
                    Some(key) => {
                        proof {
                            lemma_escaped_string_bounds(s, p + 1, Seq::empty());
                        }
                        match raw.next_value(self)? {
                            Some(value) => {
                                if str_eq(key.as_str(), "$type") {
                                    code.cq_type = value;
                                } else {
                                    code.insert(key, value);
                                }
                            },
                            None => {
                                strings = false;
                            },
                        }
                    },
                }
            }
            if !strings {
                proof {
                    reveal_strlit("invalid type: map, expected a string");
                    assert("invalid type: map, expected a string"@ =~= match map_value_error() {
                        ErrorView::Custom(m) => m,
                        _ => Seq::empty(),
                    });
                }
                return Err(Error::Custom("invalid type: map, expected a string".to_owned()));
            }
            if self.next_char()? != ']' {
                return Err(Error::ExpectedCodeEnd);
            }
            Ok(code)
        } else {
            self.parse_text_msg()
        }
    }

    /// Reads a raw word (up to the next `]`, `,` or `=`) as a truth value: `1`, `yes`, `true`
    /// or `0`, `no`, `false`. Any other word is `UnknownValue(word, "bool")`.
    pub fn deserialize_bool(&mut self) -> (r: Result<bool, Error>)
        ensures
            final(self).text() == old(self).text(),
            ({
                let e = find_stop(old(self).text(), old(self).pos());
                let w = old(self).text().subrange(old(self).pos(), e);
                &&& final(self).pos() == e
                &&& match spec_bool_word(w) {
                    Some(b) => r matches Ok(x) && x == b,
                    None => r matches Err(x) && x@ == ErrorView::UnknownValue(
                        w,
                        seq!['b', 'o', 'o', 'l'],
                    ),
                }
            }),
    {
        let v = self.next_raw_str();
        proof {
            reveal_strlit("1");
            reveal_strlit("yes");
            reveal_strlit("true");
            reveal_strlit("0");
            reveal_strlit("no");
            reveal_strlit("false");
            reveal_strlit("bool");
            assert("1"@ =~= seq!['1']);
            assert("yes"@ =~= seq!['y', 'e', 's']);
            assert("true"@ =~= seq!['t', 'r', 'u', 'e']);
            assert("0"@ =~= seq!['0']);
            assert("no"@ =~= seq!['n', 'o']);
            assert("false"@ =~= seq!['f', 'a', 'l', 's', 'e']);
            assert("bool"@ =~= seq!['b', 'o', 'o', 'l']);
        }
        let w = v.as_str();
        if str_eq(w, "1") || str_eq(w, "yes") || str_eq(w, "true") {
            Ok(true)
        } else if str_eq(w, "0") || str_eq(w, "no") || str_eq(w, "false") {
            Ok(false)
        } else {
            Err(Error::UnknownValue(v, "bool".to_owned()))
        }
    }

    /// Reads a raw word (up to the next `]`, `,` or `=`) as a decimal integer; a word that is
    /// not one, or that stands for a number out of the range of `i64`, is `ParseIntError`,
    /// with the kind that `int_error_kind_fits` gives.
    pub fn deserialize_i64(&mut self) -> (r: Result<i64, Error>)
        ensures
            final(self).text() == old(self).text(),
            ({
                let e = find_stop(old(self).text(), old(self).pos());
                let w = old(self).text().subrange(old(self).pos(), e);
                &&& final(self).pos() == e
                &&& if is_i64_literal(w) {
                    r matches Ok(x) && x as int == literal_value(w)
                } else {
                    r matches Err(x) && x@ matches ErrorView::ParseIntError(k) && int_error_kind_fits(
                        w,
                        k,
                    )
                }
            }),
    {
        let v = self.next_raw_str();
        match parse_i64(v.as_str()) {
            Ok(x) => Ok(x),
            Err((e, kind)) => Err(Error::ParseIntError(e, kind)),
        }
    }

    /// Reads a text (up to the next `]`, `,` or `=`, escapes decoded) that must be exactly
    /// one character; any other text is `MismatchedValueType(text, "char")`.
    pub fn deserialize_char(&mut self) -> (r: Result<char, Error>)
        ensures
            final(self).text() == old(self).text(),
            old(self).pos() <= final(self).pos() <= final(self).text().len(),
            match spec_escaped_string(old(self).text(), old(self).pos(), Seq::empty()) {
                Ok((t, j)) => final(self).pos() == j && if t.len() == 1 {
                    r matches Ok(x) && x == t[0]
                } else {
                    r matches Err(x) && x@ == ErrorView::MismatchedValueType(
                        t,
                        seq!['c', 'h', 'a', 'r'],
                    )
                },
                Err((ev, j)) => r matches Err(x) && x@ == ev && final(self).pos() == j,
            },
    {
        let value = self.next_escaped_string()?;
        single_char(value)
    }
}

} // verus!
