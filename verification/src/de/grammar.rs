use vstd::prelude::*;

use crate::data::{spec_insert, spec_parse_code, Entries};
use crate::err::{ErrorView, IntErrorKind};

verus! {

/// A CQ code taken as characters: its type and its parameters.
pub type CodeView = (Seq<char>, Entries);

/// A failed read: the error, and the position at which the reader is left.
pub type Failure = (ErrorView, int);

/// The characters that end a key, a value or a raw word: `]`, `,` and `=`.
pub open spec fn is_stop(c: char) -> bool {
    c == ']' || c == ',' || c == '='
}

/// The characters that delimit the parts of a message: `[`, `]`, `,` and `=`.
pub open spec fn is_delimiter(c: char) -> bool {
    c == '[' || is_stop(c)
}

/// The first position at or after `i` that holds `c`, or the length of `s` where none does.
pub open spec fn find_char(s: Seq<char>, i: int, c: char) -> int
    decreases s.len() - i,
{
    if i < 0 || i >= s.len() {
        s.len() as int
    } else if s[i] == c {
        i
    } else {
        find_char(s, i + 1, c)
    }
}

/// A search for a character from `i` ends at or after `i`, within the input.
pub proof fn lemma_find_char_bounds(s: Seq<char>, i: int, c: char)
    requires
        0 <= i <= s.len(),
    ensures
        i <= find_char(s, i, c) <= s.len(),
        find_char(s, i, c) < s.len() ==> s[find_char(s, i, c)] == c,
    decreases s.len() - i,
{
    if i < s.len() && s[i] != c {
        lemma_find_char_bounds(s, i + 1, c);
    }
}

/// The first position at or after `i` that holds a stop character, or the length of `s`.
pub open spec fn find_stop(s: Seq<char>, i: int) -> int
    decreases s.len() - i,
{
    if i < 0 || i >= s.len() {
        s.len() as int
    } else if is_stop(s[i]) {
        i
    } else {
        find_stop(s, i + 1)
    }
}

/// A search for a stop character from `i` ends at or after `i`, within the input.
pub proof fn lemma_find_stop_bounds(s: Seq<char>, i: int)
    requires
        0 <= i <= s.len(),
    ensures
        i <= find_stop(s, i) <= s.len(),
        find_stop(s, i) < s.len() ==> is_stop(s[find_stop(s, i)]),
        forall|k: int| i <= k < find_stop(s, i) ==> !is_stop(#[trigger] s[k]),
    decreases s.len() - i,
{
    if i < s.len() && !is_stop(s[i]) {
        lemma_find_stop_bounds(s, i + 1);
    }
}

/// The first position at or after `i` that holds a delimiter, or the length of `s`.
pub open spec fn find_delimiter(s: Seq<char>, i: int) -> int
    decreases s.len() - i,
{
    if i < 0 || i >= s.len() {
        s.len() as int
    } else if is_delimiter(s[i]) {
        i
    } else {
        find_delimiter(s, i + 1)
    }
}

/// The character at `i`, if there is one.
pub open spec fn spec_peek_char(s: Seq<char>, i: int) -> Result<char, ErrorView> {
    if 0 <= i < s.len() {
        Ok(s[i])
    } else {
        Err(ErrorView::Eof)
    }
}

/// Looks at an escape code that starts at `i` and ends with `;`, without reading on:
/// the character it stands for.
pub open spec fn spec_peek_escaping(s: Seq<char>, i: int) -> Result<char, ErrorView> {
    let e = find_char(s, i, ';');
    if e >= s.len() {
        Err(ErrorView::ExpectedDelimiter)
    } else {
        match spec_parse_code(s.subrange(i, e)) {
            Some(c) => Ok(c),
            None => Err(ErrorView::UnknownEscaping(s.subrange(i, e))),
        }
    }
}

/// A search for a delimiter from `i` ends at or after `i`, within the input.
pub proof fn lemma_find_delimiter_bounds(s: Seq<char>, i: int)
    requires
        0 <= i <= s.len(),
    ensures
        i <= find_delimiter(s, i) <= s.len(),
        find_delimiter(s, i) < s.len() ==> is_delimiter(s[find_delimiter(s, i)]),
        forall|k: int| i <= k < find_delimiter(s, i) ==> !is_delimiter(#[trigger] s[k]),
    decreases s.len() - i,
{
    if i < s.len() && !is_delimiter(s[i]) {
        lemma_find_delimiter_bounds(s, i + 1);
    }
}

/// Reads an escape code that starts at `i` (just after its `&`) and ends with `;`:
/// the character it stands for and the position after the `;`.
pub open spec fn spec_escaping(s: Seq<char>, i: int) -> Result<(char, int), Failure> {
    let e = find_char(s, i, ';');
    if e >= s.len() {
        Err((ErrorView::ExpectedCodeComma, i))
    } else {
        match spec_parse_code(s.subrange(i, e)) {
            Some(c) => Ok((c, e + 1)),
            None => Err((ErrorView::UnknownEscaping(s.subrange(i, e)), e)),
        }
    }
}

/// Reads one character at `i`, decoding it if it opens an escape, and the position after it.
pub open spec fn spec_escaped_char(s: Seq<char>, i: int) -> Result<(char, int), Failure> {
    if i < 0 || i >= s.len() {
        Err((ErrorView::Eof, i))
    } else if s[i] == '&' {
        spec_escaping(s, i + 1)
    } else {
        Ok((s[i], i + 1))
    }
}

/// Reads text from `i` up to the next stop character (`]`, `,` or `=`), decoding escapes;
/// `acc` is what was read before. The input must hold a stop character: the end of the
/// input is an error.
pub open spec fn spec_escaped_string(s: Seq<char>, i: int, acc: Seq<char>) -> Result<
    (Seq<char>, int),
    Failure,
>
    decreases s.len() - i,
{
    if i < 0 || i >= s.len() {
        Err((ErrorView::Eof, i))
    } else if is_stop(s[i]) {
        Ok((acc, i))
    } else if s[i] == '&' {
        match spec_escaping(s, i + 1) {
            Ok((c, j)) => if i < j <= s.len() {
                spec_escaped_string(s, j, acc.push(c))
            } else {
                Err((ErrorView::Eof, j))
            },
            Err(e) => Err(e),
        }
    } else {
        spec_escaped_string(s, i + 1, acc.push(s[i]))
    }
}

/// Reads plain message text from `i` up to the next `[`, decoding escapes; `acc` is what
/// was read before. The text must be followed by a `[`: the end of the input is an error.
pub open spec fn spec_text(s: Seq<char>, i: int, acc: Seq<char>) -> Result<(Seq<char>, int), Failure>
    decreases s.len() - i,
{
    if i < 0 || i >= s.len() {
        Err((ErrorView::Eof, i))
    } else if s[i] == '[' {
        Ok((acc, i))
    } else if s[i] == '&' {
        match spec_escaping(s, i + 1) {
            Ok((c, j)) => if i < j <= s.len() {
                spec_text(s, j, acc.push(c))
            } else {
                Err((ErrorView::Eof, j))
            },
            Err(e) => Err(e),
        }
    } else {
        spec_text(s, i + 1, acc.push(s[i]))
    }
}

/// The error for a code whose type or a parameter is not a string but a code or message
/// text, as serde words it: `invalid type: map, expected a string`.
pub open spec fn map_value_error() -> ErrorView {
    ErrorView::Custom(
        seq![
            'i', 'n', 'v', 'a', 'l', 'i', 'd', ' ', 't', 'y', 'p', 'e', ':', ' ', 'm', 'a', 'p',
            ',', ' ', 'e', 'x', 'p', 'e', 'c', 't', 'e', 'd', ' ', 'a', ' ', 's', 't', 'r', 'i',
            'n', 'g',
        ],
    )
}

/// Reads any value at `i`, as a reader that takes what comes reads it: a code where a `[`
/// stands (its closing `]` is left to read); message text where no `]`, `,` or `=` comes
/// before the next `[` or the end; else a string up to the next `]`, `,` or `=`. Yields
/// the string (`None` for a code or message text) and the position after the value.
pub open spec fn spec_any(s: Seq<char>, i: int) -> Result<(Option<Seq<char>>, int), Failure>
    decreases s.len() - i, 1int,
{
    if i < 0 || i >= s.len() {
        Err((ErrorView::Eof, i))
    } else if s[i] == '[' {
        match spec_nested(s, i) {
            Err(e) => Err(e),
            Ok(j) => Ok((None, j)),
        }
    } else {
        let d = find_delimiter(s, i);
        if d >= s.len() || s[d] == '[' {
            match spec_text(s, i, Seq::empty()) {
                Err(e) => Err(e),
                Ok((_, j)) => Ok((None, j)),
            }
        } else {
            match spec_escaped_string(s, i, Seq::empty()) {
                Err(e) => Err(e),
                Ok((v, j)) => Ok((Some(v), j)),
            }
        }
    }
}

/// Reads a code that stands as a value, its `[` at `i`: `CQ:`, its type and its pairs,
/// each read by [`spec_any`]. Yields the position of its closing `]`, which is left to read.
pub open spec fn spec_nested(s: Seq<char>, i: int) -> Result<int, Failure>
    decreases s.len() - i, 0int,
{
    if !(0 <= i && i + 4 <= s.len() && s.subrange(i + 1, i + 4) == code_prefix()) {
        Err((ErrorView::ExpectedCodeType, i + 1))
    } else {
        match spec_any(s, i + 4) {
            Err(e) => Err(e),
            Ok((_, k)) => if i < k <= s.len() {
                spec_nested_entries(s, k)
            } else {
                Err((ErrorView::Eof, k))
            },
        }
    }
}

/// Reads the pairs `,key=value` (or `,key:value`) of a code that stands as a value, key and
/// value each read by [`spec_any`], up to its `]`: the position of that `]`.
pub open spec fn spec_nested_entries(s: Seq<char>, i: int) -> Result<int, Failure>
    decreases s.len() - i, 2int,
{
    if i < 0 || i >= s.len() {
        Err((ErrorView::Eof, i))
    } else if s[i] == ']' {
        Ok(i)
    } else if s[i] == ',' {
        match spec_any(s, i + 1) {
            Err(e) => Err(e),
            Ok((_, j)) => if j <= i || j >= s.len() {
                Err((ErrorView::Eof, j))
            } else if s[j] == '=' || s[j] == ':' {
                match spec_any(s, j + 1) {
                    Err(e) => Err(e),
                    Ok((_, m)) => if i < m <= s.len() {
                        spec_nested_entries(s, m)
                    } else {
                        Err((ErrorView::Eof, m))
                    },
                }
            } else {
                Err((ErrorView::ExpectedCodeColon, j + 1))
            },
        }
    } else {
        Err((ErrorView::ExpectedCodeComma, i))
    }
}

/// A pair read inside a code, set into the code `c`: the key `$type` sets its type, any
/// other key sets a parameter, overriding an earlier one with the same key.
pub open spec fn spec_set(c: CodeView, k: Seq<char>, v: Seq<char>) -> CodeView {
    if k == type_key() {
        (v, c.1)
    } else {
        (c.0, spec_insert(c.1, k, v))
    }
}

/// Reads the pairs of a code from `i` up to its closing `]`: each is `,key=value` (or
/// `,key:value`), the key a string and the value read by [`spec_any`]. A string value is
/// set into `acc` by [`spec_set`]; a code or message text as value is noted (`strings`
/// turns false) and reading goes on. Yields the code and the position of the `]`, or
/// [`map_value_error`] there if a value was not a string.
pub open spec fn spec_entries(s: Seq<char>, i: int, acc: CodeView, strings: bool) -> Result<
    (CodeView, int),
    Failure,
>
    decreases s.len() - i,
{
    if i < 0 || i >= s.len() {
        Err((ErrorView::Eof, i))
    } else if s[i] == ']' {
        if strings {
            Ok((acc, i))
        } else {
            Err((map_value_error(), i))
        }
    } else if s[i] == ',' {
        match spec_escaped_string(s, i + 1, Seq::empty()) {
            Err(e) => Err(e),
            Ok((k, j)) => if j < 0 || j >= s.len() {
                Err((ErrorView::Eof, j))
            } else if s[j] == '=' || s[j] == ':' {
                match spec_any(s, j + 1) {
                    Err(e) => Err(e),
                    Ok((v, m)) => if i < m <= s.len() {
                        match v {
                            Some(x) => spec_entries(s, m, spec_set(acc, k, x), strings),
                            None => spec_entries(s, m, acc, false),
                        }
                    } else {
                        Err((ErrorView::Eof, m))
                    },
                }
            } else {
                Err((ErrorView::ExpectedCodeColon, j + 1))
            },
        }
    } else {
        Err((ErrorView::ExpectedCodeComma, i))
    }
}

/// The characters `CQ:` that follow the `[` of every code.
pub open spec fn code_prefix() -> Seq<char> {
    seq!['C', 'Q', ':']
}

/// Reads a code `[CQ:type,key=value,...]` whose `[` stands at `i`, and the position after
/// its `]`. The type is read by [`spec_any`]; a pair under the key `$type` sets it anew.
pub open spec fn spec_code(s: Seq<char>, i: int) -> Result<(CodeView, int), Failure> {
    if !(0 <= i && i + 4 <= s.len() && s.subrange(i + 1, i + 4) == code_prefix()) {
        Err((ErrorView::ExpectedCodeType, i + 1))
    } else {
        match spec_any(s, i + 4) {
            Err(e) => Err(e),
            Ok((ty, k)) => if i < k <= s.len() {
                match spec_entries(
                    s,
                    k,
                    (
                        match ty {
                            Some(t) => t,
                            None => Seq::empty(),
                        },
                        Seq::empty(),
                    ),
                    ty is Some,
                ) {
                    Err(e) => Err(e),
                    Ok((c, m)) => Ok((c, m + 1)),
                }
            } else {
                Err((ErrorView::Eof, k))
            },
        }
    }
}

/// The characters `text`: the type of plain message text, and the key of its content.
pub open spec fn text_word() -> Seq<char> {
    seq!['t', 'e', 'x', 't']
}

/// Plain message text taken as a code: type `text`, with the text under the key `text`.
pub open spec fn text_code(msg: Seq<char>) -> CodeView {
    (text_word(), seq![(text_word(), msg)])
}

/// Reads one part of a message at `i`: a code if a `[` stands there, else plain text up to
/// the next `[`.
pub open spec fn spec_item(s: Seq<char>, i: int) -> Result<(CodeView, int), Failure> {
    if i < 0 || i >= s.len() {
        Err((ErrorView::Eof, i))
    } else if s[i] == '[' {
        spec_code(s, i)
    } else {
        match spec_text(s, i, Seq::empty()) {
            Err(e) => Err(e),
            Ok((m, j)) => Ok((text_code(m), j)),
        }
    }
}

/// Reads the parts of a message from `i`, after `acc`, until the end of the input or a `]`
/// where a part would begin.
pub open spec fn spec_message(s: Seq<char>, i: int, acc: Seq<CodeView>) -> Result<
    Seq<CodeView>,
    Failure,
>
    decreases s.len() - i,
{
    if i < 0 || i >= s.len() || s[i] == ']' {
        Ok(acc)
    } else {
        match spec_item(s, i) {
            Err(e) => Err(e),
            Ok((c, j)) => if i < j <= s.len() {
                spec_message(s, j, acc.push(c))
            } else {
                Err((ErrorView::Eof, j))
            },
        }
    }
}

/// A whole message read into its parts.
pub open spec fn spec_from_str(s: Seq<char>) -> Result<Seq<CodeView>, ErrorView> {
    match spec_message(s, 0, Seq::empty()) {
        Ok(cs) => Ok(cs),
        Err((e, _)) => Err(e),
    }
}

/// The key under which a code's type is handed out, ahead of its parameters.
pub open spec fn type_key() -> Seq<char> {
    seq!['$', 't', 'y', 'p', 'e']
}

/// An escape code that is read ends within the input, after its start.
pub proof fn lemma_escaping_bounds(s: Seq<char>, i: int)
    requires
        0 <= i <= s.len(),
    ensures
        spec_escaping(s, i) matches Ok((c, j)) ==> i < j <= s.len(),
{
    lemma_find_char_bounds(s, i, ';');
}

/// Text read up to a stop character ends at that stop character, at or after its start.
pub proof fn lemma_escaped_string_bounds(s: Seq<char>, i: int, acc: Seq<char>)
    requires
        0 <= i <= s.len(),
    ensures
        spec_escaped_string(s, i, acc) matches Ok((t, j)) ==> i <= j < s.len() && is_stop(s[j]),
    decreases s.len() - i,
{
    if i < s.len() && !is_stop(s[i]) {
        if s[i] == '&' {
            lemma_escaping_bounds(s, i + 1);
            if let Ok((c, j)) = spec_escaping(s, i + 1) {
                lemma_escaped_string_bounds(s, j, acc.push(c));
            }
        } else {
            lemma_escaped_string_bounds(s, i + 1, acc.push(s[i]));
        }
    }
}

/// Message text that is read ends at a `[`, at or after its start.
pub proof fn lemma_text_bounds(s: Seq<char>, i: int, acc: Seq<char>)
    requires
        0 <= i <= s.len(),
    ensures
        spec_text(s, i, acc) matches Ok((t, j)) ==> i <= j < s.len() && s[j] == '[',
    decreases s.len() - i,
{
    if i < s.len() && s[i] != '[' {
        if s[i] == '&' {
            lemma_escaping_bounds(s, i + 1);
            if let Ok((c, j)) = spec_escaping(s, i + 1) {
                lemma_text_bounds(s, j, acc.push(c));
            }
        } else {
            lemma_text_bounds(s, i + 1, acc.push(s[i]));
        }
    }
}

/// The parameters of a code end at its `]`, at or after their start.
pub proof fn lemma_entries_bounds(s: Seq<char>, i: int, acc: CodeView, strings: bool)
    requires
        0 <= i <= s.len(),
    ensures
        spec_entries(s, i, acc, strings) matches Ok((d, j)) ==> i <= j < s.len() && s[j] == ']',
    decreases s.len() - i,
{
    if i < s.len() && s[i] == ',' {
        if let Ok((k, j)) = spec_escaped_string(s, i + 1, Seq::empty()) {
            if 0 <= j < s.len() && (s[j] == '=' || s[j] == ':') {
                if let Ok((v, m)) = spec_any(s, j + 1) {
                    if i < m <= s.len() {
                        match v {
                            Some(x) => lemma_entries_bounds(s, m, spec_set(acc, k, x), strings),
                            None => lemma_entries_bounds(s, m, acc, false),
                        }
                    }
                }
            }
        }
    }
}

/// A part of a message that is read ends after its start, within the input.
pub proof fn lemma_item_bounds(s: Seq<char>, i: int)
    requires
        0 <= i <= s.len(),
    ensures
        spec_item(s, i) matches Ok((c, j)) ==> i < j <= s.len(),
{
    if i < s.len() {
        if s[i] == '[' {
            if 0 <= i && i + 4 <= s.len() && s.subrange(i + 1, i + 4) == code_prefix() {
                if let Ok((ty, k)) = spec_any(s, i + 4) {
                    if i < k <= s.len() {
                        lemma_entries_bounds(
                            s,
                            k,
                            (
                                match ty {
                                    Some(t) => t,
                                    None => Seq::empty(),
                                },
                                Seq::empty(),
                            ),
                            ty is Some,
                        );
                    }
                }
            }
        } else {
            lemma_text_bounds(s, i, Seq::empty());
        }
    }
}

/// What a raw word means as a truth value: `1`, `yes`, `true` are true; `0`, `no`, `false`
/// are false; any other word means nothing.
pub open spec fn spec_bool_word(w: Seq<char>) -> Option<bool> {
    if w == seq!['1'] || w == seq!['y', 'e', 's'] || w == seq!['t', 'r', 'u', 'e'] {
        Some(true)
    } else if w == seq!['0'] || w == seq!['n', 'o'] || w == seq!['f', 'a', 'l', 's', 'e'] {
        Some(false)
    } else {
        None
    }
}

/// `c` is an ASCII decimal digit.
pub open spec fn is_digit(c: char) -> bool {
    '0' <= c <= '9'
}

/// The number that a string of decimal digits stands for.
pub open spec fn digits_value(d: Seq<char>) -> nat
    decreases d.len(),
{
    if d.len() == 0 {
        0
    } else {
        digits_value(d.drop_last()) * 10 + ((d.last() as int) - 48) as nat
    }
}

/// The digits of an integer literal: what follows its sign, if it has one.
pub open spec fn literal_digits(w: Seq<char>) -> Seq<char> {
    if w.len() > 0 && (w[0] == '+' || w[0] == '-') {
        w.drop_first()
    } else {
        w
    }
}

/// The number that an integer literal stands for: its digits, negated after a `-`.
pub open spec fn literal_value(w: Seq<char>) -> int {
    if w.len() > 0 && w[0] == '-' {
        -(digits_value(literal_digits(w)) as int)
    } else {
        digits_value(literal_digits(w)) as int
    }
}

/// `w` is an optional `+` or `-` followed by one or more decimal digits, and stands for a
/// number that an `i64` holds.
pub open spec fn is_i64_literal(w: Seq<char>) -> bool {
    let d = literal_digits(w);
    &&& d.len() > 0
    &&& forall|k: int| 0 <= k < d.len() ==> is_digit(#[trigger] d[k])
    &&& i64::MIN <= literal_value(w) <= i64::MAX
}

/// What std's documentation says of the kind of error that parsing `w`, which is not an
/// `i64` literal, as an `i64` gives: `Empty` exactly for the empty text; `InvalidDigit` for
/// a sign on its own; `NegOverflow` for `-` and digits that stand for a number below the
/// range of `i64`, `PosOverflow` for digits (after `+` or no sign) above it. For a text
/// with any other character the documentation leaves the kind open, but for `Empty`.
pub open spec fn int_error_kind_fits(w: Seq<char>, k: IntErrorKind) -> bool {
    let d = literal_digits(w);
    if w.len() == 0 {
        k == IntErrorKind::Empty
    } else if d.len() == 0 {
        k == IntErrorKind::InvalidDigit
    } else if forall|i: int| 0 <= i < d.len() ==> is_digit(#[trigger] d[i]) {
        if w[0] == '-' {
            k == IntErrorKind::NegOverflow
        } else {
            k == IntErrorKind::PosOverflow
        }
    } else {
        k != IntErrorKind::Empty
    }
}

} // verus!
