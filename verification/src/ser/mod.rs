pub mod format;
pub mod serializer;

pub use serializer::CQSerializer;

use vstd::prelude::*;

use crate::data::{escape_chars, CQCode};
use crate::de::codes_view;
use crate::de::grammar::type_key;
use crate::ser::format::{
    fields_out, is_type_seed, lemma_seeds_prefix, rendered, seeds_fields, seeds_text, ser_code,
    ser_codes, text_out, value_of,
};
use crate::ser::serializer::MapSerializer;
use crate::err::Error;

verus! {

/// A text as the writer writes it: every character escaped.
fn render(x: &str) -> (s: String)
    ensures
        s@ == escape_chars(x@),
{
    let mut ser = CQSerializer::default();
    ser.serialize_str(x);
    ser.finish()
}

/// Writes one code through the pairs of a [`MapSerializer`]: `$type` first, then the
/// parameters in order.
fn serialize_code(code: &CQCode, ser: &mut CQSerializer)
    ensures
        final(ser).out() == old(ser).out() + ser_code(code@),
{
    let ghost d = code@.1;
    let ghost ety = escape_chars(code@.0);
    let mut ms = MapSerializer::new();
    proof {
        reveal_strlit("$type");
        assert("$type"@ =~= type_key());
    }
    ms.serialize_key("$type".to_owned());
    ms.serialize_value(render(code.cq_type.as_str()));
    let ghost first = ms.seeds();
    assert(first =~= seq![(type_key(), Some(ety))]);
    let n = code.data.len();
    let mut j: usize = 0;
    proof {
        assert(rendered(d.take(0)) =~= Seq::<(Seq<char>, Seq<char>)>::empty());
        assert(seeds_fields(first, 0, 1) =~= seeds_fields(first, 0, 0) + Seq::<char>::empty());
        assert(seeds_text(first, 0, 1) =~= seeds_text(first, 0, 0) + Seq::<char>::empty());
    }
    while j < n
        invariant
            n == code.data@.len(),
            d == code@.1,
            d.len() == n,
            j <= n,
            ms.seeds().len() == j + 1,
            ms.seeds()[0] == (type_key(), Some(ety)),
            forall|i: int| 0 <= i < ms.seeds().len() ==> (#[trigger] ms.seeds()[i]).1 is Some,
            seeds_fields(ms.seeds(), 0, (j + 1) as nat) == fields_out(rendered(d.take(j as int))),
            seeds_text(ms.seeds(), 0, (j + 1) as nat) == text_out(rendered(d.take(j as int))),
        decreases n - j,
    {
        let ghost before = ms.seeds();
        let key = code.data[j].0.clone();
        let value = render(code.data[j].1.as_str());
        assert(d[j as int] == (code.data@[j as int].0@, code.data@[j as int].1@));
        ms.serialize_key(key);
        ms.serialize_value(value);
        let ghost after = ms.seeds();
        proof {
            assert(after =~= before.push((d[j as int].0, Some(escape_chars(d[j as int].1)))));
            lemma_seeds_prefix(before, after, 0, (j + 1) as nat);
            assert(rendered(d.take(j + 1)) =~= rendered(d.take(j as int)).push(
                (d[j as int].0, escape_chars(d[j as int].1)),
            ));
            assert(rendered(d.take(j + 1)).drop_last() =~= rendered(d.take(j as int)));
        }
        j = j + 1;
    }
    let ghost sd = ms.seeds();
    proof {
        assert(is_type_seed(sd, 0));
        let c = choose|i: int| is_type_seed(sd, i);
        assert(c == 0);
        assert(d.take(n as int) =~= d);
        assert(value_of(sd[0].1) == ety);
    }
    let _ = ms.end(ser);
}

/// Writes a message: each code in turn, plain text codes (type `text`) as their text, the
/// others as `[CQ:type,key=value,...]`, with `&`, `[`, `]` and `,` escaped throughout.
pub fn to_string(value: &[CQCode]) -> (r: Result<String, Error>)
    ensures
        r matches Ok(s) && s@ == ser_codes(codes_view(value@)),
{
    let mut ser = CQSerializer::default();
    let mut i: usize = 0;
    while i < value.len()
        invariant
            i <= value@.len(),
            ser.out() == ser_codes(codes_view(value@.take(i as int))),
        decreases value@.len() - i,
    {
        serialize_code(&value[i], &mut ser);
        assert(codes_view(value@.take(i + 1)).drop_last() =~= codes_view(value@.take(i as int)));
        i = i + 1;
    }
    assert(value@.take(value@.len() as int) =~= value@);
    Ok(ser.finish())
}

} // verus!
