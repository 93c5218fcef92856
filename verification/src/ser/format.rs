use vstd::prelude::*;

use crate::data::{escape_chars, Entries};
use crate::de::grammar::{text_word, type_key, CodeView};

verus! {

/// The characters `[CQ:` that open every code.
pub open spec fn code_open() -> Seq<char> {
    seq!['[', 'C', 'Q', ':']
}

/// The character of the decimal digit `d`.
pub open spec fn digit_char(d: int) -> char {
    (48 + d) as char
}

/// The decimal digits of `n`, without leading zeros (`0` for zero).
pub open spec fn decimal(n: nat) -> Seq<char>
    decreases n,
{
    if n < 10 {
        seq![digit_char(n as int)]
    } else {
        decimal(n / 10).push(digit_char((n % 10) as int))
    }
}

/// How an integer is written: a `-` before the digits of a negative number.
pub open spec fn signed_decimal(v: int) -> Seq<char> {
    if v < 0 {
        seq!['-'] + decimal((-v) as nat)
    } else {
        decimal(v as nat)
    }
}

/// How a truth value is written: `true` or `false`.
pub open spec fn bool_word(b: bool) -> Seq<char> {
    if b {
        seq!['t', 'r', 'u', 'e']
    } else {
        seq!['f', 'a', 'l', 's', 'e']
    }
}

/// The parameters with each value written out (escaped).
pub open spec fn rendered(d: Entries) -> Entries {
    d.map_values(|p: (Seq<char>, Seq<char>)| (p.0, escape_chars(p.1)))
}

/// One parameter inside a code: `,key=value`, the key escaped, the value as written out.
pub open spec fn field_out(k: Seq<char>, v: Seq<char>) -> Seq<char> {
    seq![','] + escape_chars(k) + seq!['='] + v
}

/// The parameters inside a code, in order.
pub open spec fn fields_out(d: Entries) -> Seq<char>
    decreases d.len(),
{
    if d.len() == 0 {
        Seq::empty()
    } else {
        fields_out(d.drop_last()) + field_out(d.last().0, d.last().1)
    }
}

/// Plain message text: the values under the key `text`, in order; other keys are dropped.
pub open spec fn text_out(d: Entries) -> Seq<char>
    decreases d.len(),
{
    if d.len() == 0 {
        Seq::empty()
    } else {
        text_out(d.drop_last()) + if d.last().0 == text_word() {
            d.last().1
        } else {
            Seq::empty()
        }
    }
}

/// A code of the (written out) type `ty` with the (written out) parameters `d`: plain text
/// where the type is `text`, else `[CQ:type,key=value,...]`.
pub open spec fn struct_out(ty: Seq<char>, d: Entries) -> Seq<char> {
    if ty == text_word() {
        text_out(d)
    } else {
        code_open() + ty + fields_out(d) + seq![']']
    }
}

/// How a code is written.
pub open spec fn ser_code(c: CodeView) -> Seq<char> {
    struct_out(escape_chars(c.0), rendered(c.1))
}

/// How a message is written: its parts one after the other.
pub open spec fn ser_codes(cs: Seq<CodeView>) -> Seq<char>
    decreases cs.len(),
{
    if cs.len() == 0 {
        Seq::empty()
    } else {
        ser_codes(cs.drop_last()) + ser_code(cs.last())
    }
}

/// Key–value pairs gathered for a code; a value not yet given is `None`.
pub type Seeds = Seq<(Seq<char>, Option<Seq<char>>)>;

/// The value of a pair, empty where none was given.
pub open spec fn value_of(v: Option<Seq<char>>) -> Seq<char> {
    match v {
        Some(x) => x,
        None => Seq::empty(),
    }
}

/// `i` is the first pair with the key `$type`.
pub open spec fn is_type_seed(seeds: Seeds, i: int) -> bool {
    &&& 0 <= i < seeds.len()
    &&& seeds[i].0 == type_key()
    &&& forall|j: int| 0 <= j < i ==> seeds[j].0 != type_key()
}

/// Every value that writing the pairs out reads is there: that of the first `$type` pair,
/// and, but for that pair, each value of a code's parameters, or (for plain text, type
/// `text`) each value under the key `text`. Without a `$type` pair nothing is read.
pub open spec fn seeds_complete(seeds: Seeds) -> bool {
    forall|k: int| #[trigger]
        is_type_seed(seeds, k) ==> {
            &&& seeds[k].1 is Some
            &&& forall|i: int|
                0 <= i < seeds.len() && i != k && (value_of(seeds[k].1) != text_word()
                    || seeds[i].0 == text_word()) ==> (#[trigger] seeds[i]).1 is Some
        }
}

/// The parameters among the first `n` pairs, all but the one at `skip`, as inside a code.
pub open spec fn seeds_fields(seeds: Seeds, skip: int, n: nat) -> Seq<char>
    decreases n,
{
    if n == 0 {
        Seq::empty()
    } else {
        seeds_fields(seeds, skip, (n - 1) as nat) + if n - 1 == skip {
            Seq::empty()
        } else {
            field_out(seeds[n - 1].0, value_of(seeds[n - 1].1))
        }
    }
}

/// The values under the key `text` among the first `n` pairs, all but the one at `skip`.
pub open spec fn seeds_text(seeds: Seeds, skip: int, n: nat) -> Seq<char>
    decreases n,
{
    if n == 0 {
        Seq::empty()
    } else {
        seeds_text(seeds, skip, (n - 1) as nat) + if n - 1 == skip || seeds[n - 1].0
            != text_word() {
            Seq::empty()
        } else {
            value_of(seeds[n - 1].1)
        }
    }
}

/// The code that the pairs describe, the pair at `skip` giving its type.
pub open spec fn seeds_out(seeds: Seeds, skip: int) -> Seq<char> {
    let ty = value_of(seeds[skip].1);
    if ty == text_word() {
        seeds_text(seeds, skip, seeds.len())
    } else {
        code_open() + ty + seeds_fields(seeds, skip, seeds.len()) + seq![']']
    }
}

/// The parameters written from the first `n` pairs depend on those pairs alone.
pub proof fn lemma_seeds_prefix(a: Seeds, b: Seeds, skip: int, n: nat)
    requires
        n <= a.len(),
        n <= b.len(),
        forall|i: int| 0 <= i < n ==> a[i] == b[i],
    ensures
        seeds_fields(a, skip, n) == seeds_fields(b, skip, n),
        seeds_text(a, skip, n) == seeds_text(b, skip, n),
    decreases n,
{
    if n > 0 {
        lemma_seeds_prefix(a, b, skip, (n - 1) as nat);
    }
}

} // verus!
