use vstd::prelude::*;
use vstd::utf8::encode_utf8;

use crate::data::{
    escape_chars, escape_one, is_first_key, keys_distinct, same_code, spec_escape_code, spec_get,
    spec_insert, spec_parse_code, Entries,
};
use crate::de::grammar::{
    code_prefix, digits_value, find_char, find_delimiter, is_delimiter, is_digit, is_i64_literal,
    is_stop, literal_digits, literal_value, spec_bool_word, spec_code, spec_entries,
    spec_escaped_char, spec_escaped_string, spec_escaping, spec_from_str, spec_item, spec_message,
    spec_any, spec_peek_char, spec_peek_escaping, spec_set, spec_text, text_code, text_word,
    type_key, CodeView, Failure,
};
use crate::de::deserializer::fits_bytes;
use crate::ser::format::{
    bool_word, code_open, decimal, digit_char, field_out, fields_out, is_type_seed, rendered,
    seeds_fields, seeds_out, seeds_text, ser_code, ser_codes, signed_decimal, text_out, value_of,
    Seeds,
};
use crate::text::{lemma_encode_take_grows, lemma_encode_take_step, lemma_scalar_width};

verus! {

/// `x` stands in `s` from position `i` on.
pub open spec fn occurs_at(s: Seq<char>, i: int, x: Seq<char>) -> bool {
    &&& 0 <= i
    &&& i + x.len() <= s.len()
    &&& s.subrange(i, i + x.len()) == x
}

/// Where `a + b` stands at `i`, `a` stands at `i` and `b` right after it.
proof fn lemma_occurs_split(s: Seq<char>, i: int, a: Seq<char>, b: Seq<char>)
    requires
        occurs_at(s, i, a + b),
    ensures
        occurs_at(s, i, a),
        occurs_at(s, i + a.len(), b),
{
    let w = s.subrange(i, i + a.len() + b.len());
    assert(w == a + b);
    assert forall|k: int| 0 <= k < a.len() implies s.subrange(i, i + a.len())[k] == a[k] by {
        assert(w[k] == (a + b)[k]);
    }
    assert forall|k: int| 0 <= k < b.len() implies s.subrange(
        i + a.len(),
        i + a.len() + b.len(),
    )[k] == b[k] by {
        assert(w[a.len() + k] == (a + b)[a.len() + k]);
    }
    assert(s.subrange(i, i + a.len()) =~= a);
    assert(s.subrange(i + a.len(), i + a.len() + b.len()) =~= b);
}

/// The characters of what stands at `i` are those of `s` from `i` on.
proof fn lemma_occurs_index(s: Seq<char>, i: int, x: Seq<char>, k: int)
    requires
        occurs_at(s, i, x),
        0 <= k < x.len(),
    ensures
        s[i + k] == x[k],
{
    assert(s.subrange(i, i + x.len())[k] == s[i + k]);
}

/// Escaping a text piece by piece is escaping it whole.
pub proof fn law_escape_concat(a: Seq<char>, b: Seq<char>)
    ensures
        escape_chars(a + b) == escape_chars(a) + escape_chars(b),
    decreases b.len(),
{
    if b.len() == 0 {
        assert(a + b =~= a);
        assert(escape_chars(a) + escape_chars(b) =~= escape_chars(a));
    } else {
        law_escape_concat(a, b.drop_last());
        assert((a + b).drop_last() =~= a + b.drop_last());
        assert((a + b).last() == b.last());
        assert(escape_chars(a + b) =~= escape_chars(a) + escape_chars(b));
    }
}

/// A text is escaped as its first character and then the rest.
proof fn lemma_escape_first(x: Seq<char>)
    requires
        x.len() > 0,
    ensures
        escape_chars(x) == escape_one(x[0]) + escape_chars(x.drop_first()),
{
    law_escape_concat(seq![x[0]], x.drop_first());
    assert(seq![x[0]] + x.drop_first() =~= x);
    let one = seq![x[0]];
    assert(one.drop_last() =~= Seq::<char>::empty());
    assert(one.last() == x[0]);
    assert(escape_chars(one.drop_last()) == Seq::<char>::empty());
    assert(escape_chars(one) =~= escape_one(x[0]));
}

/// No character of `x` is `=`.
pub open spec fn no_equals(x: Seq<char>) -> bool {
    forall|k: int| 0 <= k < x.len() ==> x[k] != '='
}

/// The escape code of a character is read back as that character, up to its `;`.
proof fn lemma_escaping_of(s: Seq<char>, i: int, c: char)
    requires
        spec_escape_code(c) is Some,
        occurs_at(s, i, escape_one(c)),
    ensures
        spec_escaping(s, i + 1) == Ok::<(char, int), Failure>((c, i + 5)),
{
    let code = spec_escape_code(c)->0;
    let e = escape_one(c);
    assert(e.len() == 5);
    assert forall|k: int| 0 <= k < 5 implies s[i + k] == e[k] by {
        lemma_occurs_index(s, i, e, k);
    }
    assert(e[0] == '&' && e[1] != ';' && e[2] != ';' && e[3] != ';' && e[4] == ';');
    assert(s[i + 1] != ';' && s[i + 2] != ';' && s[i + 3] != ';' && s[i + 4] == ';');
    assert(find_char(s, i + 3, ';') == find_char(s, i + 4, ';'));
    assert(find_char(s, i + 2, ';') == find_char(s, i + 3, ';'));
    assert(find_char(s, i + 1, ';') == find_char(s, i + 2, ';'));
    assert(find_char(s, i + 1, ';') == i + 4);
    assert(s.subrange(i + 1, i + 4) =~= code);
}

/// Escaped text without `=` is read back, as a key or value, up to the stop character
/// that follows it.
proof fn lemma_unescape_string(s: Seq<char>, i: int, x: Seq<char>, acc: Seq<char>)
    requires
        no_equals(x),
        occurs_at(s, i, escape_chars(x)),
        i + escape_chars(x).len() < s.len(),
        is_stop(s[i + escape_chars(x).len()]),
    ensures
        spec_escaped_string(s, i, acc) == Ok::<(Seq<char>, int), Failure>(
            (acc + x, i + escape_chars(x).len()),
        ),
    decreases x.len(),
{
    if x.len() == 0 {
        assert(acc + x =~= acc);
    } else {
        let c = x[0];
        let tail = x.drop_first();
        lemma_escape_first(x);
        let e1 = escape_one(c);
        lemma_occurs_split(s, i, e1, escape_chars(tail));
        lemma_occurs_index(s, i, e1, 0);
        assert(no_equals(tail)) by {
            assert forall|k: int| 0 <= k < tail.len() implies tail[k] != '=' by {
                assert(tail[k] == x[k + 1]);
            }
        }
        assert(acc.push(c) + tail =~= acc + x);
        if spec_escape_code(c) is Some {
            lemma_escaping_of(s, i, c);
            lemma_unescape_string(s, i + 5, tail, acc.push(c));
        } else {
            assert(c != '=');
            lemma_unescape_string(s, i + 1, tail, acc.push(c));
        }
    }
}

/// Escaped plain text is read back up to the `[` that follows it.
proof fn lemma_unescape_text(s: Seq<char>, i: int, t: Seq<char>, acc: Seq<char>)
    requires
        occurs_at(s, i, escape_chars(t)),
        i + escape_chars(t).len() < s.len(),
        s[i + escape_chars(t).len()] == '[',
    ensures
        spec_text(s, i, acc) == Ok::<(Seq<char>, int), Failure>(
            (acc + t, i + escape_chars(t).len()),
        ),
    decreases t.len(),
{
    if t.len() == 0 {
        assert(acc + t =~= acc);
    } else {
        let c = t[0];
        let tail = t.drop_first();
        lemma_escape_first(t);
        let e1 = escape_one(c);
        lemma_occurs_split(s, i, e1, escape_chars(tail));
        lemma_occurs_index(s, i, e1, 0);
        assert(acc.push(c) + tail =~= acc + t);
        if spec_escape_code(c) is Some {
            lemma_escaping_of(s, i, c);
            lemma_unescape_text(s, i + 5, tail, acc.push(c));
        } else {
            lemma_unescape_text(s, i + 1, tail, acc.push(c));
        }
    }
}

/// Escaped text without `=` holds no delimiter.
proof fn lemma_escape_no_delimiter(x: Seq<char>)
    requires
        no_equals(x),
    ensures
        forall|k: int| 0 <= k < escape_chars(x).len() ==> !is_delimiter(#[trigger] escape_chars(x)[k]),
    decreases x.len(),
{
    if x.len() > 0 {
        let d = x.drop_last();
        assert(no_equals(d)) by {
            assert forall|k: int| 0 <= k < d.len() implies d[k] != '=' by {
                assert(d[k] == x[k]);
            }
        }
        lemma_escape_no_delimiter(d);
        let c = x.last();
        assert(c == x[x.len() - 1]);
        let e1 = escape_one(c);
        assert forall|k: int| 0 <= k < e1.len() implies !is_delimiter(#[trigger] e1[k]) by {}
        assert forall|k: int| 0 <= k < escape_chars(x).len() implies !is_delimiter(
            #[trigger] escape_chars(x)[k],
        ) by {
            if k < escape_chars(d).len() {
                assert(escape_chars(x)[k] == escape_chars(d)[k]);
            } else {
                assert(escape_chars(x)[k] == e1[k - escape_chars(d).len()]);
            }
        }
    }
}

/// A search for a delimiter passes over a stretch that holds none.
proof fn lemma_find_delimiter_skip(s: Seq<char>, i: int, j: int)
    requires
        0 <= i <= j <= s.len(),
        forall|k: int| i <= k < j ==> !is_delimiter(#[trigger] s[k]),
    ensures
        find_delimiter(s, i) == find_delimiter(s, j),
    decreases j - i,
{
    if i < j {
        lemma_find_delimiter_skip(s, i + 1, j);
    }
}

/// A value without `=`, escaped and followed by a stop character, is read back.
proof fn lemma_read_value(s: Seq<char>, i: int, x: Seq<char>)
    requires
        no_equals(x),
        occurs_at(s, i, escape_chars(x)),
        i + escape_chars(x).len() < s.len(),
        is_stop(s[i + escape_chars(x).len()]),
    ensures
        spec_any(s, i) == Ok::<(Option<Seq<char>>, int), Failure>(
            (Some(x), i + escape_chars(x).len()),
        ),
{
    let ex = escape_chars(x);
    let end = i + ex.len();
    lemma_escape_no_delimiter(x);
    if ex.len() > 0 {
        lemma_occurs_index(s, i, ex, 0);
    }
    assert forall|k: int| i <= k < end implies !is_delimiter(#[trigger] s[k]) by {
        lemma_occurs_index(s, i, ex, k - i);
    }
    lemma_find_delimiter_skip(s, i, end);
    lemma_unescape_string(s, i, x, Seq::empty());
    assert(Seq::<char>::empty() + x =~= x);
}

/// Writing parameters piece by piece is writing them all.
proof fn lemma_fields_concat(a: Entries, b: Entries)
    ensures
        fields_out(a + b) == fields_out(a) + fields_out(b),
    decreases b.len(),
{
    if b.len() == 0 {
        assert(a + b =~= a);
        assert(fields_out(a) + fields_out(b) =~= fields_out(a));
    } else {
        lemma_fields_concat(a, b.drop_last());
        assert((a + b).drop_last() =~= a + b.drop_last());
        assert(fields_out(a + b) =~= fields_out(a) + fields_out(b));
    }
}

/// Written parameters begin with a `,`.
proof fn lemma_fields_first(d: Entries)
    requires
        d.len() > 0,
    ensures
        fields_out(d).len() > 0,
        fields_out(d)[0] == ',',
    decreases d.len(),
{
    let f = field_out(d.last().0, d.last().1);
    assert(f[0] == ',');
    if d.len() > 1 {
        lemma_fields_first(d.drop_last());
        assert((fields_out(d.drop_last()) + f)[0] == fields_out(d.drop_last())[0]);
    } else {
        assert(d.drop_last() =~= Seq::<(Seq<char>, Seq<char>)>::empty());
        assert(fields_out(d.drop_last()) == Seq::<char>::empty());
        assert(fields_out(d) =~= f);
    }
}

/// Writing a message piece by piece is writing it whole.
pub proof fn law_ser_codes_concat(a: Seq<CodeView>, b: Seq<CodeView>)
    ensures
        ser_codes(a + b) == ser_codes(a) + ser_codes(b),
    decreases b.len(),
{
    if b.len() == 0 {
        assert(a + b =~= a);
        assert(ser_codes(a) + ser_codes(b) =~= ser_codes(a));
    } else {
        law_ser_codes_concat(a, b.drop_last());
        assert((a + b).drop_last() =~= a + b.drop_last());
        assert(ser_codes(a + b) =~= ser_codes(a) + ser_codes(b));
    }
}

/// Escaped text without `&` is the text itself.
proof fn lemma_escape_plain(x: Seq<char>)
    requires
        forall|k: int| 0 <= k < escape_chars(x).len() ==> escape_chars(x)[k] != '&',
    ensures
        escape_chars(x) == x,
    decreases x.len(),
{
    if x.len() > 0 {
        let d = x.drop_last();
        let e1 = escape_one(x.last());
        assert forall|k: int| 0 <= k < escape_chars(d).len() implies escape_chars(d)[k] != '&' by {
            assert(escape_chars(x)[k] == escape_chars(d)[k]);
        }
        lemma_escape_plain(d);
        if spec_escape_code(x.last()) is Some {
            assert(escape_chars(x)[escape_chars(d).len() as int] == e1[0]);
        }
        assert(escape_chars(x) =~= x);
    }
}

/// The type `text` is written as `text`, and no other type is.
proof fn lemma_escape_text_word(ty: Seq<char>)
    ensures
        (escape_chars(ty) == text_word()) == (ty == text_word()),
{
    let t = text_word();
    reveal_with_fuel(escape_chars, 5);
    assert(t.drop_last().drop_last().drop_last().drop_last() =~= Seq::<char>::empty());
    assert(escape_chars(t) =~= t);
    if escape_chars(ty) == t {
        lemma_escape_plain(ty);
    }
}

/// No parameter of `d` has the key `$type`, which would be read as the type.
pub open spec fn no_type_key(d: Entries) -> bool {
    forall|k: int| 0 <= k < d.len() ==> (#[trigger] d[k]).0 != type_key()
}

/// No key and no value of `d` holds a `=`.
pub open spec fn entries_plain(d: Entries) -> bool {
    forall|k: int| 0 <= k < d.len() ==> no_equals(#[trigger] d[k].0) && no_equals(d[k].1)
}

/// Written parameters with distinct keys and no `=` are read back, in order, up to the `]`
/// that follows them; `j` counts those already read.
proof fn lemma_read_entries(s: Seq<char>, k: int, ty: Seq<char>, d: Entries, j: int)
    requires
        keys_distinct(d),
        entries_plain(d),
        no_type_key(d),
        occurs_at(s, k, fields_out(rendered(d))),
        k + fields_out(rendered(d)).len() < s.len(),
        s[k + fields_out(rendered(d)).len()] == ']',
        0 <= j <= d.len(),
    ensures
        spec_entries(s, k + fields_out(rendered(d).take(j)).len(), (ty, d.take(j)), true) == Ok::<
            (CodeView, int),
            Failure,
        >(((ty, d), k + fields_out(rendered(d)).len())),
    decreases d.len() - j,
{
    let rd = rendered(d);
    let end = k + fields_out(rd).len();
    if j == d.len() {
        assert(rd.take(j) =~= rd);
        assert(d.take(j) =~= d);
    } else {
        let p = k + fields_out(rd.take(j)).len();
        let key = d[j].0;
        let val = d[j].1;
        assert(rd[j] == (key, escape_chars(val)));
        let f = field_out(key, escape_chars(val));
        assert(rd.take(j + 1).drop_last() =~= rd.take(j));
        assert(fields_out(rd.take(j + 1)) == fields_out(rd.take(j)) + f);
        lemma_fields_concat(rd.take(j + 1), rd.skip(j + 1));
        assert(rd.take(j + 1) + rd.skip(j + 1) =~= rd);
        lemma_occurs_split(s, k, fields_out(rd.take(j + 1)), fields_out(rd.skip(j + 1)));
        lemma_occurs_split(s, k, fields_out(rd.take(j)), f);
        let ek = escape_chars(key);
        let ev = escape_chars(val);
        assert(f == seq![','] + ek + seq!['='] + ev);
        assert(f =~= seq![','] + (ek + (seq!['='] + ev)));
        lemma_occurs_split(s, p, seq![','], ek + (seq!['='] + ev));
        lemma_occurs_split(s, p + 1, ek, seq!['='] + ev);
        lemma_occurs_split(s, p + 1 + ek.len(), seq!['='], ev);
        lemma_occurs_index(s, p, seq![','], 0);
        lemma_occurs_index(s, p + 1 + ek.len(), seq!['='], 0);
        let q = p + f.len();
        assert(q == k + fields_out(rd.take(j + 1)).len());
        if j + 1 < d.len() {
            lemma_fields_first(rd.skip(j + 1));
            lemma_occurs_index(s, q, fields_out(rd.skip(j + 1)), 0);
        } else {
            assert(rd.skip(j + 1) =~= Seq::<(Seq<char>, Seq<char>)>::empty());
            assert(q == end);
        }
        assert(no_equals(key) && no_equals(val));
        lemma_unescape_string(s, p + 1, key, Seq::empty());
        assert(Seq::<char>::empty() + key =~= key);
        lemma_read_value(s, p + 2 + ek.len(), val);
        assert(!exists|c: int| is_first_key(d.take(j), key, c)) by {
            if exists|c: int| is_first_key(d.take(j), key, c) {
                let c = choose|c: int| is_first_key(d.take(j), key, c);
                assert(d[c].0 == key);
            }
        }
        assert(spec_insert(d.take(j), key, val) =~= d.take(j + 1));
        assert(key != type_key());
        assert(spec_set((ty, d.take(j)), key, val) == (ty, d.take(j + 1)));
        lemma_read_entries(s, k, ty, d, j + 1);
    }
}

/// A code that is written out and then read back comes back whole: a `text` code holds
/// exactly one non-empty value under the key `text`; any other code has distinct keys, none
/// of them `$type`, and no `=` in its type, keys or values.
pub open spec fn writable(c: CodeView) -> bool {
    if c.0 == text_word() {
        &&& c.1.len() == 1
        &&& c.1[0].0 == text_word()
        &&& c.1[0].1.len() > 0
    } else {
        &&& no_equals(c.0)
        &&& keys_distinct(c.1)
        &&& entries_plain(c.1)
        &&& no_type_key(c.1)
    }
}

/// A message comes back whole from its written form: every part is [`writable`], and a
/// plain text part is followed by a code that is not plain text (two texts in a row would
/// run together, and text must be followed by a code).
pub open spec fn round_trips(cs: Seq<CodeView>) -> bool {
    forall|i: int|
        0 <= i < cs.len() ==> writable(#[trigger] cs[i]) && (cs[i].0 == text_word() ==> i + 1
            < cs.len() && cs[i + 1].0 != text_word())
}

/// A written code that is not plain text is read back where it stands.
proof fn lemma_read_code(s: Seq<char>, i: int, c: CodeView)
    requires
        c.0 != text_word(),
        writable(c),
        occurs_at(s, i, ser_code(c)),
    ensures
        ser_code(c).len() > 0,
        ser_code(c)[0] == '[',
        spec_item(s, i) == Ok::<(CodeView, int), Failure>(
            (c, i + ser_code(c).len()),
        ),
{
    let ety = escape_chars(c.0);
    let rd = rendered(c.1);
    let fo = fields_out(rd);
    lemma_escape_text_word(c.0);
    assert(ser_code(c) == code_open() + ety + fo + seq![']']);
    assert(ser_code(c) =~= code_open() + (ety + (fo + seq![']'])));
    lemma_occurs_split(s, i, code_open(), ety + (fo + seq![']']));
    lemma_occurs_split(s, i + 4, ety, fo + seq![']']);
    lemma_occurs_split(s, i + 4 + ety.len(), fo, seq![']']);
    let k = i + 4 + ety.len();
    let end = k + fo.len();
    lemma_occurs_index(s, end, seq![']'], 0);
    lemma_occurs_index(s, i, code_open(), 0);
    assert(s.subrange(i + 1, i + 4) =~= code_prefix()) by {
        assert forall|t: int| 0 <= t < 3 implies s.subrange(i + 1, i + 4)[t] == code_prefix()[t] by {
            lemma_occurs_index(s, i, code_open(), t + 1);
        }
    }
    if rd.len() > 0 {
        lemma_fields_first(rd);
        lemma_occurs_index(s, k, fo, 0);
    } else {
        assert(fo == Seq::<char>::empty());
    }
    lemma_read_value(s, i + 4, c.0);
    lemma_read_entries(s, k, c.0, c.1, 0);
    assert(rd.take(0) =~= Seq::<(Seq<char>, Seq<char>)>::empty());
    assert(c.1.take(0) =~= Seq::<(Seq<char>, Seq<char>)>::empty());
    assert(spec_code(s, i) == Ok::<(CodeView, int), Failure>(((c.0, c.1), end + 1)));
}

/// A plain text part is written as its escaped text.
proof fn lemma_ser_text(c: CodeView)
    requires
        c.0 == text_word(),
        writable(c),
    ensures
        ser_code(c) == escape_chars(c.1[0].1),
        c == text_code(c.1[0].1),
{
    lemma_escape_text_word(c.0);
    let rd = rendered(c.1);
    assert(rd.drop_last() =~= Seq::<(Seq<char>, Seq<char>)>::empty());
    assert(text_out(rd.drop_last()) == Seq::<char>::empty());
    assert(ser_code(c) =~= escape_chars(c.1[0].1));
    assert(c.1 =~= seq![(text_word(), c.1[0].1)]);
}

/// Escaped text never begins with `[` or `]`.
proof fn lemma_escape_first_char(t: Seq<char>)
    requires
        t.len() > 0,
    ensures
        escape_chars(t).len() > 0,
        escape_chars(t)[0] != '[',
        escape_chars(t)[0] != ']',
{
    lemma_escape_first(t);
    assert(escape_chars(t)[0] == escape_one(t[0])[0]);
}

/// A written message is read back part by part after `acc`.
proof fn lemma_read_message(s: Seq<char>, i: int, cs: Seq<CodeView>, acc: Seq<CodeView>)
    requires
        round_trips(cs),
        occurs_at(s, i, ser_codes(cs)),
        i + ser_codes(cs).len() == s.len(),
    ensures
        spec_message(s, i, acc) == Ok::<Seq<CodeView>, Failure>(acc + cs),
    decreases cs.len(),
{
    if cs.len() == 0 {
        assert(acc + cs =~= acc);
    } else {
        let c = cs[0];
        let rest = cs.drop_first();
        law_ser_codes_concat(seq![c], rest);
        assert(seq![c] + rest =~= cs);
        assert(seq![c].drop_last() =~= Seq::<CodeView>::empty());
        assert(ser_codes(seq![c].drop_last()) == Seq::<char>::empty());
        assert(seq![c].last() == c);
        assert(ser_codes(seq![c]) =~= ser_code(c));
        lemma_occurs_split(s, i, ser_code(c), ser_codes(rest));
        assert(writable(c));
        let n = ser_code(c).len();
        if c.0 == text_word() {
            let t = c.1[0].1;
            lemma_ser_text(c);
            lemma_escape_first_char(t);
            lemma_occurs_index(s, i, ser_code(c), 0);
            let c2 = cs[1];
            assert(rest[0] == c2);
            assert(writable(c2));
            law_ser_codes_concat(seq![c2], rest.drop_first());
            assert(seq![c2] + rest.drop_first() =~= rest);
            assert(seq![c2].drop_last() =~= Seq::<CodeView>::empty());
            assert(ser_codes(seq![c2].drop_last()) == Seq::<char>::empty());
            assert(seq![c2].last() == c2);
            assert(ser_codes(seq![c2]) =~= ser_code(c2));
            lemma_occurs_split(s, i + n, ser_code(c2), ser_codes(rest.drop_first()));
            lemma_read_code(s, i + n, c2);
            lemma_occurs_index(s, i + n, ser_code(c2), 0);
            lemma_unescape_text(s, i, t, Seq::empty());
            assert(Seq::<char>::empty() + t =~= t);
        } else {
            lemma_read_code(s, i, c);
            lemma_occurs_index(s, i, ser_code(c), 0);
        }
        assert(round_trips(rest)) by {
            assert forall|j: int| 0 <= j < rest.len() implies writable(#[trigger] rest[j]) && (
            rest[j].0 == text_word() ==> j + 1 < rest.len() && rest[j + 1].0 != text_word()) by {
                assert(rest[j] == cs[j + 1]);
                assert(writable(cs[j + 1]));
                if j + 1 < rest.len() {
                    assert(rest[j + 1] == cs[j + 2]);
                }
            }
        }
        lemma_read_message(s, i + n, rest, acc.push(c));
        assert(acc.push(c) + rest =~= acc + cs);
    }
}

/// Reading back a written message gives the message: for every message that
/// [`round_trips`], `from_str` of `to_string` of it is `Ok` of the same codes, in order.
pub proof fn law_round_trip(cs: Seq<CodeView>)
    requires
        round_trips(cs),
    ensures
        spec_from_str(ser_codes(cs)) == Ok::<Seq<CodeView>, crate::err::ErrorView>(cs),
{
    let s = ser_codes(cs);
    assert(s.subrange(0, s.len() as int) =~= s);
    lemma_read_message(s, 0, cs, Seq::empty());
    assert(Seq::<CodeView>::empty() + cs =~= cs);
}

/// An escape code reads back as the character it was written for, and every code that is
/// read is the one written for its character.
pub proof fn law_escape_code_inverse(c: char, code: Seq<char>)
    ensures
        spec_escape_code(c) == Some(code) ==> spec_parse_code(code) == Some(c),
        spec_parse_code(code) == Some(c) ==> spec_escape_code(c) == Some(code),
{
}

/// Where some pair has the key `k`, a first one does.
proof fn lemma_first_key_exists(d: Entries, k: Seq<char>, j: int)
    requires
        0 <= j < d.len(),
        d[j].0 == k,
    ensures
        exists|i: int| is_first_key(d, k, i),
    decreases j,
{
    if exists|m: int| 0 <= m < j && d[m].0 == k {
        let m = choose|m: int| 0 <= m < j && d[m].0 == k;
        lemma_first_key_exists(d, k, m);
    } else {
        assert(is_first_key(d, k, j));
    }
}

/// After setting `k` to `v`, `k` has the value `v` and every other key keeps its value; a
/// map stays a map.
pub proof fn law_insert_then_get(d: Entries, k: Seq<char>, v: Seq<char>, other: Seq<char>)
    ensures
        spec_get(spec_insert(d, k, v), k) == Some(v),
        other != k ==> spec_get(spec_insert(d, k, v), other) == spec_get(d, other),
        keys_distinct(d) ==> keys_distinct(spec_insert(d, k, v)),
{
    let n = spec_insert(d, k, v);
    if exists|i: int| is_first_key(d, k, i) {
        let i = choose|i: int| is_first_key(d, k, i);
        assert(is_first_key(n, k, i));
        let c = choose|c: int| is_first_key(n, k, c);
        assert(c == i);
        if other != k {
            assert forall|j: int| is_first_key(n, other, j) <==> is_first_key(d, other, j) by {
                if 0 <= j < n.len() {
                    assert forall|m: int| 0 <= m < j implies (n[m].0 != other <==> d[m].0 != other) by {
                        if m == i {
                        }
                    }
                }
            }
        }
    } else {
        assert forall|j: int| 0 <= j < d.len() implies d[j].0 != k by {
            if d[j].0 == k {
                lemma_first_key_exists(d, k, j);
            }
        }
        assert(is_first_key(n, k, d.len() as int));
        let c = choose|c: int| is_first_key(n, k, c);
        assert(c == d.len());
        if other != k {
            assert forall|j: int| is_first_key(n, other, j) <==> is_first_key(d, other, j) by {
                if 0 <= j < n.len() {
                    assert forall|m: int| 0 <= m < j implies (n[m].0 != other <==> d[m].0 != other) by {
                    }
                }
            }
        }
        if keys_distinct(d) {
            assert forall|a: int, b: int|
                0 <= a < n.len() && 0 <= b < n.len() && a != b implies n[a].0 != n[b].0 by {
                if a == d.len() {
                    assert(!is_first_key(d, k, b));
                } else if b == d.len() {
                    assert(!is_first_key(d, k, a));
                }
            }
        }
    }
}

/// A code with distinct keys equals itself.
pub proof fn law_same_code_reflexive(a: (Seq<char>, Entries))
    requires
        keys_distinct(a.1),
    ensures
        same_code(a, a),
{
    assert forall|i: int| 0 <= i < a.1.len() implies spec_get(a.1, #[trigger] a.1[i].0) == Some(
        a.1[i].1,
    ) by {
        assert(is_first_key(a.1, a.1[i].0, i));
        let c = choose|c: int| is_first_key(a.1, a.1[i].0, c);
        assert(c == i);
    }
}

/// A text without `=`, escaped and followed by a stop character, reads back as itself.
pub proof fn law_escaped_string_reads_back(x: Seq<char>, stop: char)
    requires
        no_equals(x),
        is_stop(stop),
    ensures
        spec_escaped_string(escape_chars(x).push(stop), 0, Seq::empty()) == Ok::<
            (Seq<char>, int),
            Failure,
        >((x, escape_chars(x).len() as int)),
{
    let s = escape_chars(x).push(stop);
    assert(s.subrange(0, escape_chars(x).len() as int) =~= escape_chars(x));
    lemma_unescape_string(s, 0, x, Seq::empty());
    assert(Seq::<char>::empty() + x =~= x);
}

/// Any plain text, escaped and followed by a code's `[`, reads back as itself.
pub proof fn law_text_reads_back(t: Seq<char>)
    ensures
        spec_text(escape_chars(t).push('['), 0, Seq::empty()) == Ok::<
            (Seq<char>, int),
            Failure,
        >((t, escape_chars(t).len() as int)),
{
    let s = escape_chars(t).push('[');
    assert(s.subrange(0, escape_chars(t).len() as int) =~= escape_chars(t));
    lemma_unescape_text(s, 0, t, Seq::empty());
    assert(Seq::<char>::empty() + t =~= t);
}

/// Looking at an escape code finds the character that reading it gives; where reading
/// fails, looking fails too, with `ExpectedDelimiter` in place of `ExpectedCodeComma`.
pub proof fn law_peek_escaping_matches_next(s: Seq<char>, i: int)
    ensures
        match spec_escaping(s, i) {
            Ok((c, j)) => spec_peek_escaping(s, i) == Ok::<char, crate::err::ErrorView>(c),
            Err((e, _)) => spec_peek_escaping(s, i) == Err::<char, crate::err::ErrorView>(
                if e == crate::err::ErrorView::ExpectedCodeComma {
                    crate::err::ErrorView::ExpectedDelimiter
                } else {
                    e
                },
            ),
        },
{
}

/// Looking at the next character finds what reading it gives, where that character is
/// not `&` (an `&` is looked at as part of its own code, which no code matches).
pub proof fn law_peek_escaped_char_matches_next(s: Seq<char>, i: int)
    requires
        !(0 <= i < s.len() && s[i] == '&'),
    ensures
        match spec_peek_char(s, i) {
            Ok(c) => spec_escaped_char(s, i) == Ok::<(char, int), Failure>(
                (c, i + 1),
            ),
            Err(e) => spec_escaped_char(s, i) == Err::<(char, int), Failure>((e, i)),
        },
{
}

/// A written truth value reads back as itself.
pub proof fn law_bool_reads_back(b: bool)
    ensures
        spec_bool_word(bool_word(b)) == Some(b),
{
    assert(bool_word(true) =~= seq!['t', 'r', 'u', 'e']);
    assert(bool_word(false) =~= seq!['f', 'a', 'l', 's', 'e']);
    assert(seq!['f', 'a', 'l', 's', 'e'] != seq!['1']);
    assert(seq!['f', 'a', 'l', 's', 'e'].len() != seq!['y', 'e', 's'].len());
    assert(seq!['f', 'a', 'l', 's', 'e'][0] != seq!['t', 'r', 'u', 'e'][0]);
}

/// The decimal digits of `n` are digits and stand for `n`.
proof fn lemma_decimal_value(n: nat)
    ensures
        decimal(n).len() > 0,
        forall|k: int| 0 <= k < decimal(n).len() ==> is_digit(#[trigger] decimal(n)[k]),
        digits_value(decimal(n)) == n,
    decreases n,
{
    let d = (n % 10) as int;
    assert(0 <= d < 10);
    let c = digit_char(d);
    assert(c as int == 48 + d);
    if n >= 10 {
        lemma_decimal_value(n / 10);
        let w = decimal(n / 10).push(c);
        assert(w.drop_last() =~= decimal(n / 10));
        assert(forall|k: int| 0 <= k < decimal(n / 10).len() ==> w[k] == decimal(n / 10)[k]);
        assert((n / 10) * 10 + n % 10 == n) by (nonlinear_arith);
        assert(w.last() == c);
        assert(digits_value(w) == digits_value(decimal(n / 10)) * 10 + ((c as int) - 48) as nat);
    } else {
        assert(seq![c].drop_last() =~= Seq::<char>::empty());
        assert(seq![c].last() == c);
        assert(digits_value(seq![c].drop_last()) == 0);
        assert(n % 10 == n);
    }
}

/// A written integer reads back as itself.
pub proof fn law_integer_reads_back(v: i64)
    ensures
        is_i64_literal(signed_decimal(v as int)),
        literal_value(signed_decimal(v as int)) == v,
{
    let w = signed_decimal(v as int);
    if v < 0 {
        let m = (-(v as int)) as nat;
        lemma_decimal_value(m);
        assert(w[0] == '-');
        assert(literal_digits(w) =~= decimal(m));
    } else {
        lemma_decimal_value(v as nat);
        assert(is_digit(w[0]));
        assert(literal_digits(w) == w);
    }
}

/// With distinct keys, the value held for `k` is that of the one pair with key `k`.
proof fn lemma_get_distinct(d: Entries, k: Seq<char>)
    requires
        keys_distinct(d),
    ensures
        spec_get(d, k) is Some <==> exists|i: int| 0 <= i < d.len() && d[i].0 == k,
        forall|i: int| 0 <= i < d.len() && d[i].0 == k ==> spec_get(d, k) == Some(d[i].1),
{
    if exists|i: int| 0 <= i < d.len() && d[i].0 == k {
        let i = choose|i: int| 0 <= i < d.len() && d[i].0 == k;
        lemma_first_key_exists(d, k, i);
        let c = choose|c: int| is_first_key(d, k, c);
        assert forall|j: int| 0 <= j < d.len() && d[j].0 == k implies spec_get(d, k) == Some(
            d[j].1,
        ) by {
            assert(j == c);
        }
    }
}

/// The keys of `d`, in order.
pub open spec fn keys_of(d: Entries) -> Seq<Seq<char>> {
    d.map_values(|p: (Seq<char>, Seq<char>)| p.0)
}

/// Two codes are equal (`==`) exactly when they have the same type and, taken as maps from
/// keys to values, the same parameters: the order of the pairs does not matter.
pub proof fn law_equality_is_map_equality(a: (Seq<char>, Entries), b: (Seq<char>, Entries))
    requires
        keys_distinct(a.1),
        keys_distinct(b.1),
    ensures
        same_code(a, b) <==> (a.0 == b.0 && forall|k: Seq<char>| spec_get(a.1, k) == spec_get(b.1, k)),
{
    broadcast use vstd::set::group_set_axioms;
    let ka = keys_of(a.1);
    let kb = keys_of(b.1);
    assert(ka.no_duplicates()) by {
        assert forall|i: int, j: int| 0 <= i < ka.len() && 0 <= j < ka.len() && i != j implies ka[i]
            != ka[j] by {
            assert(a.1[i].0 != a.1[j].0);
        }
    }
    assert(kb.no_duplicates()) by {
        assert forall|i: int, j: int| 0 <= i < kb.len() && 0 <= j < kb.len() && i != j implies kb[i]
            != kb[j] by {
            assert(b.1[i].0 != b.1[j].0);
        }
    }
    ka.unique_seq_to_set();
    kb.unique_seq_to_set();
    assert forall|k: Seq<char>| ka.to_set().contains(k) <==> spec_get(a.1, k) is Some by {
        lemma_get_distinct(a.1, k);
        if ka.to_set().contains(k) {
            assert(ka.contains(k));
            let i = choose|i: int| 0 <= i < ka.len() && ka[i] == k;
            assert(a.1[i].0 == k);
        }
        if spec_get(a.1, k) is Some {
            let i = choose|i: int| 0 <= i < a.1.len() && a.1[i].0 == k;
            assert(ka[i] == k);
            assert(ka.contains(k));
        }
    }
    assert forall|k: Seq<char>| kb.to_set().contains(k) <==> spec_get(b.1, k) is Some by {
        lemma_get_distinct(b.1, k);
        if kb.to_set().contains(k) {
            assert(kb.contains(k));
            let i = choose|i: int| 0 <= i < kb.len() && kb[i] == k;
            assert(b.1[i].0 == k);
        }
        if spec_get(b.1, k) is Some {
            let i = choose|i: int| 0 <= i < b.1.len() && b.1[i].0 == k;
            assert(kb[i] == k);
            assert(kb.contains(k));
        }
    }
    if same_code(a, b) {
        assert forall|k: Seq<char>| spec_get(a.1, k) == spec_get(b.1, k) by {
            lemma_get_distinct(a.1, k);
            lemma_get_distinct(b.1, k);
            if spec_get(a.1, k) is Some {
                let i = choose|i: int| 0 <= i < a.1.len() && a.1[i].0 == k;
                assert(spec_get(b.1, a.1[i].0) == Some(a.1[i].1));
            } else if spec_get(b.1, k) is Some {
                assert(ka.to_set().subset_of(kb.to_set())) by {
                    assert forall|x: Seq<char>| ka.to_set().contains(x) implies kb.to_set().contains(
                        x,
                    ) by {
                        let i = choose|i: int| 0 <= i < a.1.len() && a.1[i].0 == x;
                        assert(spec_get(b.1, a.1[i].0) == Some(a.1[i].1));
                    }
                }
                vstd::seq_lib::seq_to_set_is_finite(kb);
                ka.to_set().lemma_subset_not_in_lt(kb.to_set(), k);
            }
        }
    }
    if a.0 == b.0 && forall|k: Seq<char>| spec_get(a.1, k) == spec_get(b.1, k) {
        assert(ka.to_set() =~= kb.to_set());
        assert forall|i: int| 0 <= i < a.1.len() implies spec_get(b.1, #[trigger] a.1[i].0) == Some(
            a.1[i].1,
        ) by {
            lemma_get_distinct(a.1, a.1[i].0);
        }
    }
}

/// Only one prefix is the longest within a byte budget: so looking at a stretch of the input
/// (`peek_str`) finds exactly what reading it (`next_str`) gives.
pub proof fn law_fits_bytes_unique(s: Seq<char>, max: int, n1: int, n2: int)
    requires
        fits_bytes(s, n1, max),
        fits_bytes(s, n2, max),
    ensures
        n1 == n2,
{
    if n1 < n2 {
        lemma_encode_take_grows(s, n1 + 1, n2);
    } else if n2 < n1 {
        lemma_encode_take_grows(s, n2 + 1, n1);
    }
}

/// Where the byte budget ends on a character boundary, the stretch is exactly the
/// characters before it; where the budget covers the whole text, it is the whole text.
pub proof fn law_fits_bytes_boundary(s: Seq<char>, max: int, n: int, k: int)
    requires
        fits_bytes(s, n, max),
        0 <= k <= s.len(),
    ensures
        encode_utf8(s.take(k)).len() == max ==> n == k,
        encode_utf8(s).len() <= max ==> n == s.len(),
{
    if encode_utf8(s.take(k)).len() == max {
        if n < k {
            lemma_encode_take_grows(s, n + 1, k);
        } else if n > k {
            lemma_encode_take_step(s, k);
            lemma_scalar_width(s[k]);
            lemma_encode_take_grows(s, k + 1, n);
        }
    }
    if encode_utf8(s).len() <= max && n < s.len() {
        assert(s.take(s.len() as int) =~= s);
        lemma_encode_take_grows(s, n + 1, s.len() as int);
    }
}

/// Plain text holding no `[` and no `&`, with a `[` after it, reads as exactly its
/// characters (commas, `]` and `=` included), stopping at the `[`.
pub proof fn law_plain_text_reads_as_itself(t: Seq<char>)
    requires
        forall|k: int| 0 <= k < t.len() ==> #[trigger] t[k] != '[' && t[k] != '&',
    ensures
        spec_text(t.push('['), 0, Seq::empty()) == Ok::<(Seq<char>, int), Failure>(
            (t, t.len() as int),
        ),
{
    let s = t.push('[');
    lemma_plain_text(s, 0, t.len() as int, Seq::empty());
    assert(Seq::<char>::empty() + s.subrange(0, t.len() as int) =~= t);
}

/// Reading plain text from `i` gathers every character up to the `[` at `j`.
proof fn lemma_plain_text(s: Seq<char>, i: int, j: int, acc: Seq<char>)
    requires
        0 <= i <= j < s.len(),
        s[j] == '[',
        forall|k: int| i <= k < j ==> #[trigger] s[k] != '[' && s[k] != '&',
    ensures
        spec_text(s, i, acc) == Ok::<(Seq<char>, int), Failure>((acc + s.subrange(i, j), j)),
    decreases j - i,
{
    if i == j {
        assert(acc + s.subrange(i, j) =~= acc);
    } else {
        assert(s[i] != '[' && s[i] != '&');
        lemma_plain_text(s, i + 1, j, acc.push(s[i]));
        assert(acc.push(s[i]) + s.subrange(i + 1, j) =~= acc + s.subrange(i, j));
    }
}

/// Only `&`, `[`, `]` and `,` have an escape code; every other character is written as
/// itself.
pub proof fn law_escape_only_four(c: char)
    ensures
        spec_escape_code(c) is None <==> !(c == '&' || c == '[' || c == ']' || c == ','),
        !(c == '&' || c == '[' || c == ']' || c == ',') ==> escape_one(c) == seq![c],
{
}

/// A text without `&`, `[`, `]` and `,` is written as itself.
pub proof fn law_escape_plain_text(t: Seq<char>)
    requires
        forall|k: int|
            0 <= k < t.len() ==> !(#[trigger] t[k] == '&' || t[k] == '[' || t[k] == ']' || t[k]
                == ','),
    ensures
        escape_chars(t) == t,
    decreases t.len(),
{
    if t.len() > 0 {
        law_escape_plain_text(t.drop_last());
        law_escape_only_four(t.last());
        assert(t.drop_last().push(t.last()) =~= t);
    }
}

/// Every parameter written out: `,` key `=` value for each pair in order, key and value
/// escaped.
pub open spec fn written_pairs(d: Entries) -> Seq<char>
    decreases d.len(),
{
    if d.len() == 0 {
        Seq::empty()
    } else {
        written_pairs(d.drop_last()) + seq![','] + escape_chars(d.last().0) + seq!['=']
            + escape_chars(d.last().1)
    }
}

/// A code that is not plain text is written as `[CQ:`, its escaped type, each of its
/// parameters as `,key=value` (both escaped, whatever they hold), and `]`.
pub proof fn law_code_written(c: CodeView)
    requires
        c.0 != seq!['t', 'e', 'x', 't'],
    ensures
        ser_code(c) == seq!['[', 'C', 'Q', ':'] + escape_chars(c.0) + written_pairs(c.1) + seq![
            ']',
        ],
{
    lemma_escape_text_word(c.0);
    lemma_written_pairs(c.1);
}

/// The written parameters are `written_pairs`.
proof fn lemma_written_pairs(d: Entries)
    ensures
        fields_out(rendered(d)) == written_pairs(d),
    decreases d.len(),
{
    if d.len() > 0 {
        lemma_written_pairs(d.drop_last());
        assert(rendered(d).drop_last() =~= rendered(d.drop_last()));
        assert(rendered(d).last() == (d.last().0, escape_chars(d.last().1)));
        assert(fields_out(rendered(d)) =~= written_pairs(d));
    }
}

/// Gathered pairs written inside a code: `,` key `=` value for each pair in order, the key
/// escaped and the value as it was gathered (already written out).
pub open spec fn gathered_fields(p: Seeds) -> Seq<char>
    decreases p.len(),
{
    if p.len() == 0 {
        Seq::empty()
    } else {
        gathered_fields(p.drop_last()) + seq![','] + escape_chars(p.last().0) + seq!['=']
            + value_of(p.last().1)
    }
}

/// The gathered values under the key `text`, in order.
pub open spec fn gathered_text(p: Seeds) -> Seq<char>
    decreases p.len(),
{
    if p.len() == 0 {
        Seq::empty()
    } else {
        gathered_text(p.drop_last()) + if p.last().0 == seq!['t', 'e', 'x', 't'] {
            value_of(p.last().1)
        } else {
            Seq::empty()
        }
    }
}

/// Wherever the `$type` pair stands among the gathered pairs, the code written holds every
/// other pair, in the order gathered: `[CQ:type` and each `,key=value` then `]`, or, for
/// the type `text`, the values under the key `text`.
pub proof fn law_end_writes_every_other_pair(seeds: Seeds, skip: int)
    requires
        is_type_seed(seeds, skip),
    ensures
        ({
            let ty = value_of(seeds[skip].1);
            let rest = seeds.remove(skip);
            seeds_out(seeds, skip) == if ty == seq!['t', 'e', 'x', 't'] {
                gathered_text(rest)
            } else {
                seq!['[', 'C', 'Q', ':'] + ty + gathered_fields(rest) + seq![']']
            }
        }),
{
    lemma_seeds_gathered(seeds, skip, seeds.len());
    assert(seeds.take(seeds.len() as int) =~= seeds);
}

/// The first `n` pairs, but the one at `skip`, are written as `gathered_fields` and
/// `gathered_text` of those pairs.
proof fn lemma_seeds_gathered(seeds: Seeds, skip: int, n: nat)
    requires
        0 <= skip < seeds.len(),
        n <= seeds.len(),
    ensures
        n <= skip ==> seeds_fields(seeds, skip, n) == gathered_fields(seeds.take(n as int))
            && seeds_text(seeds, skip, n) == gathered_text(seeds.take(n as int)),
        n > skip ==> seeds_fields(seeds, skip, n) == gathered_fields(
            seeds.take(n as int).remove(skip),
        ) && seeds_text(seeds, skip, n) == gathered_text(seeds.take(n as int).remove(skip)),
    decreases n,
{
    if n == 0 {
        assert(seeds.take(0) =~= Seq::<(Seq<char>, Option<Seq<char>>)>::empty());
    } else {
        let m = (n - 1) as nat;
        lemma_seeds_gathered(seeds, skip, m);
        let last = seeds[m as int];
        if m == skip {
            assert(seeds.take(n as int).remove(skip) =~= seeds.take(m as int));
            assert(seeds_fields(seeds, skip, n) =~= seeds_fields(seeds, skip, m));
            assert(seeds_text(seeds, skip, n) =~= seeds_text(seeds, skip, m));
        } else if m < skip {
            assert(seeds.take(n as int).drop_last() =~= seeds.take(m as int));
            assert(seeds.take(n as int).last() == last);
            assert(seeds_fields(seeds, skip, n) =~= gathered_fields(seeds.take(n as int)));
            assert(seeds_text(seeds, skip, n) =~= gathered_text(seeds.take(n as int)));
        } else {
            let p = seeds.take(n as int).remove(skip);
            assert(p.drop_last() =~= seeds.take(m as int).remove(skip));
            assert(p.last() == last);
            assert(seeds_fields(seeds, skip, n) =~= gathered_fields(p));
            assert(seeds_text(seeds, skip, n) =~= gathered_text(p));
        }
    }
}

/// The truth words: `1`, `yes` and `true` read as true, `0`, `no` and `false` as false,
/// and no other word reads as a truth value.
pub proof fn law_bool_words(w: Seq<char>)
    ensures
        spec_bool_word(w) == Some(true) <==> (w == seq!['1'] || w == seq!['y', 'e', 's'] || w
            == seq!['t', 'r', 'u', 'e']),
        spec_bool_word(w) == Some(false) <==> (w == seq!['0'] || w == seq!['n', 'o'] || w
            == seq!['f', 'a', 'l', 's', 'e']),
{
    assert(seq!['1'][0] != seq!['0'][0]);
}

/// A string holding no `&` and no `]`, `,` or `=`, with one of those three after it, reads
/// as exactly its characters (a raw `[` included), stopping there.
pub proof fn law_plain_string_reads_as_itself(t: Seq<char>, stop: char)
    requires
        stop == ']' || stop == ',' || stop == '=',
        forall|k: int|
            0 <= k < t.len() ==> #[trigger] t[k] != '&' && t[k] != ']' && t[k] != ',' && t[k]
                != '=',
    ensures
        spec_escaped_string(t.push(stop), 0, Seq::empty()) == Ok::<(Seq<char>, int), Failure>(
            (t, t.len() as int),
        ),
{
    let s = t.push(stop);
    lemma_plain_string(s, 0, t.len() as int, Seq::empty());
    assert(Seq::<char>::empty() + s.subrange(0, t.len() as int) =~= t);
}

/// Reading a string from `i` gathers every character up to the stop character at `j`.
proof fn lemma_plain_string(s: Seq<char>, i: int, j: int, acc: Seq<char>)
    requires
        0 <= i <= j < s.len(),
        is_stop(s[j]),
        forall|k: int| i <= k < j ==> #[trigger] s[k] != '&' && !is_stop(s[k]),
    ensures
        spec_escaped_string(s, i, acc) == Ok::<(Seq<char>, int), Failure>(
            (acc + s.subrange(i, j), j),
        ),
    decreases j - i,
{
    if i == j {
        assert(acc + s.subrange(i, j) =~= acc);
    } else {
        assert(s[i] != '&' && !is_stop(s[i]));
        lemma_plain_string(s, i + 1, j, acc.push(s[i]));
        assert(acc.push(s[i]) + s.subrange(i + 1, j) =~= acc + s.subrange(i, j));
    }
}

/// The escaped values under the key `text`, in order.
pub open spec fn text_values(d: Entries) -> Seq<char>
    decreases d.len(),
{
    if d.len() == 0 {
        Seq::empty()
    } else {
        text_values(d.drop_last()) + if d.last().0 == seq!['t', 'e', 'x', 't'] {
            escape_chars(d.last().1)
        } else {
            Seq::empty()
        }
    }
}

/// A code of type `text` is written as the escaped values under the key `text`, in order,
/// and nothing else.
pub proof fn law_text_code_written(c: CodeView)
    requires
        c.0 == seq!['t', 'e', 'x', 't'],
    ensures
        ser_code(c) == text_values(c.1),
{
    lemma_escape_text_word(c.0);
    lemma_text_values(c.1);
}

/// The written text of a code is `text_values`.
proof fn lemma_text_values(d: Entries)
    ensures
        text_out(rendered(d)) == text_values(d),
    decreases d.len(),
{
    if d.len() > 0 {
        lemma_text_values(d.drop_last());
        assert(rendered(d).drop_last() =~= rendered(d.drop_last()));
        assert(rendered(d).last() == (d.last().0, escape_chars(d.last().1)));
    }
}

/// A positive number's decimal digits do not start with `0`.
proof fn lemma_decimal_first(n: nat)
    requires
        n > 0,
    ensures
        decimal(n)[0] != '0',
    decreases n,
{
    if n >= 10 {
        lemma_decimal_first(n / 10);
        lemma_decimal_value(n / 10);
        assert(decimal(n)[0] == decimal(n / 10)[0]);
    } else {
        assert(digit_char(n as int) as int == 48 + n);
    }
}

/// An integer is written as `-` exactly when it is negative, then the decimal digits of its
/// magnitude, without leading zeros.
pub proof fn law_integer_written(v: int)
    ensures
        ({
            let w = signed_decimal(v);
            let d = if v < 0 {
                w.drop_first()
            } else {
                w
            };
            &&& w.len() > 0
            &&& (w[0] == '-' <==> v < 0)
            &&& d.len() > 0
            &&& forall|k: int| 0 <= k < d.len() ==> is_digit(#[trigger] d[k])
            &&& digits_value(d) == if v < 0 {
                -v
            } else {
                v
            }
            &&& (d.len() > 1 ==> d[0] != '0')
        }),
{
    let m: nat = if v < 0 {
        (-v) as nat
    } else {
        v as nat
    };
    lemma_decimal_value(m);
    if m > 0 {
        lemma_decimal_first(m);
    } else {
        assert(decimal(0) =~= seq!['0']);
    }
    if v < 0 {
        assert((seq!['-'] + decimal(m)).drop_first() =~= decimal(m));
    } else {
        assert(is_digit(decimal(m)[0]));
    }
}

/// Plain text holding no `[` and no `&` that runs to the end of the input is not read:
/// message text must be followed by a code.
pub proof fn law_unfinished_text_is_eof(t: Seq<char>)
    requires
        forall|k: int| 0 <= k < t.len() ==> #[trigger] t[k] != '[' && t[k] != '&',
    ensures
        spec_text(t, 0, Seq::empty()) == Err::<(Seq<char>, int), Failure>(
            (crate::err::ErrorView::Eof, t.len() as int),
        ),
{
    lemma_unfinished_text(t, 0, Seq::empty());
}

/// Reading plain text from `i` to the end of the input fails there with `Eof`.
proof fn lemma_unfinished_text(t: Seq<char>, i: int, acc: Seq<char>)
    requires
        0 <= i <= t.len(),
        forall|k: int| i <= k < t.len() ==> #[trigger] t[k] != '[' && t[k] != '&',
    ensures
        spec_text(t, i, acc) == Err::<(Seq<char>, int), Failure>(
            (crate::err::ErrorView::Eof, t.len() as int),
        ),
    decreases t.len() - i,
{
    if i < t.len() {
        assert(t[i] != '[' && t[i] != '&');
        lemma_unfinished_text(t, i + 1, acc.push(t[i]));
    }
}

/// The escape codes are those of HTML: `amp` for `&`, and `#` with the decimal code point
/// for `[`, `]` and `,`.
pub proof fn law_escape_codes_are_entities(c: char)
    ensures
        c == '&' ==> spec_escape_code(c) == Some(seq!['a', 'm', 'p']),
        (c == '[' || c == ']' || c == ',') ==> spec_escape_code(c) == Some(
            seq!['#'] + decimal(c as u32 as nat),
        ),
{
    reveal_with_fuel(decimal, 3);
    if c == '[' {
        assert(c as u32 == 91);
        assert(decimal(91) =~= seq!['9', '1']);
        assert(seq!['#'] + decimal(91) =~= seq!['#', '9', '1']);
    } else if c == ']' {
        assert(c as u32 == 93);
        assert(decimal(93) =~= seq!['9', '3']);
        assert(seq!['#'] + decimal(93) =~= seq!['#', '9', '3']);
    } else if c == ',' {
        assert(c as u32 == 44);
        assert(decimal(44) =~= seq!['4', '4']);
        assert(seq!['#'] + decimal(44) =~= seq!['#', '4', '4']);
    }
}

/// A truth value is written as the word `true` or `false`.
pub proof fn law_bool_written(b: bool)
    ensures
        bool_word(b) == if b {
            seq!['t', 'r', 'u', 'e']
        } else {
            seq!['f', 'a', 'l', 's', 'e']
        },
{
}

/// An integer word stands for its digits' number, negated after `-` and unchanged after
/// `+` or with no sign; it is read as an `i64` exactly when it has digits, only digits
/// after the sign, and that number fits.
pub proof fn law_literal_value(d: Seq<char>)
    requires
        forall|k: int| 0 <= k < d.len() ==> is_digit(#[trigger] d[k]),
    ensures
        literal_value(d) == digits_value(d),
        literal_value(seq!['+'] + d) == digits_value(d),
        literal_value(seq!['-'] + d) == -digits_value(d),
        is_i64_literal(d) <==> d.len() > 0 && digits_value(d) <= i64::MAX,
        is_i64_literal(seq!['+'] + d) <==> d.len() > 0 && digits_value(d) <= i64::MAX,
        is_i64_literal(seq!['-'] + d) <==> d.len() > 0 && -digits_value(d) >= i64::MIN,
{
    assert((seq!['+'] + d).drop_first() =~= d);
    assert((seq!['-'] + d).drop_first() =~= d);
    assert((seq!['+'] + d)[0] == '+');
    assert((seq!['-'] + d)[0] == '-');
    if d.len() > 0 {
        assert(is_digit(d[0]));
    }
}

/// A pair read inside a code under the key `$type` gives the code that type and leaves its
/// parameters; under any other key it sets that parameter and leaves the type.
pub proof fn law_pair_sets_type_or_parameter(c: CodeView, k: Seq<char>, v: Seq<char>)
    ensures
        k == seq!['$', 't', 'y', 'p', 'e'] ==> spec_set(c, k, v) == (v, c.1),
        k != seq!['$', 't', 'y', 'p', 'e'] ==> spec_set(c, k, v).0 == c.0 && spec_get(
            spec_set(c, k, v).1,
            k,
        ) == Some(v),
{
    if k != type_key() {
        law_insert_then_get(c.1, k, v, k);
    }
}

} // verus!
