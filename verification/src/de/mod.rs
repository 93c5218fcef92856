pub mod access;
pub mod deserializer;
pub mod grammar;

pub use deserializer::CQDeserializer;

use vstd::prelude::*;

use crate::data::CQCode;
use crate::de::access::CodeSeq;
use crate::de::grammar::{lemma_item_bounds, spec_from_str, spec_message, CodeView};
use crate::err::Error;

verus! {

/// The codes of a list, each taken as its view.
pub open spec fn codes_view(v: Seq<CQCode>) -> Seq<CodeView> {
    v.map_values(|c: CQCode| c@)
}

/// Reads a whole message into its parts, in order: each `[CQ:type,key=value,...]` as a
/// code of that type with those parameters, each stretch of plain text between codes as a
/// code of type `text` that holds the text under the key `text`. Reading stops at the end
/// of the input or at a `]` where a part would begin.
pub fn from_str(input: &str) -> (r: Result<Vec<CQCode>, Error>)
    ensures
        match spec_from_str(input@) {
            Ok(cs) => r matches Ok(v) && codes_view(v@) == cs && forall|k: int|
                0 <= k < v@.len() ==> (#[trigger] v@[k]).wf(),
            Err(ev) => r matches Err(e) && e@ == ev,
        },
{
    let mut de = CQDeserializer::new(input);
    let mut seq = CodeSeq::new();
    let mut out: Vec<CQCode> = Vec::new();
    let ghost s = input@;
    assert(codes_view(out@) =~= Seq::<CodeView>::empty());
    loop
        invariant
            s == input@,
            de.text() == s,
            0 <= de.pos() <= s.len(),
            spec_message(s, 0, Seq::empty()) == spec_message(s, de.pos(), codes_view(out@)),
            forall|k: int| 0 <= k < out@.len() ==> (#[trigger] out@[k]).wf(),
        decreases s.len() - de.pos(),
    {
        let ghost p = de.pos();
        proof {
            lemma_item_bounds(s, p);
        }
        let next = seq.next_element(&mut de);
        let next = match next {
            Ok(n) => n,
            Err(e) => {
                return Err(e);
            },
        };
        match next {
            Some(code) => {
                let ghost prev = out@;
                let ghost c = code@;
                out.push(code);
                assert(codes_view(out@) =~= codes_view(prev).push(c));
            },
            None => {
                return Ok(out);
            },
        }
    }
}

} // verus!
