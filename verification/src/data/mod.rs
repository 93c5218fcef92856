use vstd::prelude::*;

use crate::text::chars_of;

verus! {

/// The code that stands between `&` and `;` for a character that must be escaped.
pub open spec fn spec_escape_code(c: char) -> Option<Seq<char>> {
    if c == '&' {
        Some(seq!['a', 'm', 'p'])
    } else if c == '[' {
        Some(seq!['#', '9', '1'])
    } else if c == ']' {
        Some(seq!['#', '9', '3'])
    } else if c == ',' {
        Some(seq!['#', '4', '4'])
    } else {
        None
    }
}

/// The character that an escape code (the text between `&` and `;`) stands for.
pub open spec fn spec_parse_code(code: Seq<char>) -> Option<char> {
    if code == seq!['a', 'm', 'p'] {
        Some('&')
    } else if code == seq!['#', '9', '1'] {
        Some('[')
    } else if code == seq!['#', '9', '3'] {
        Some(']')
    } else if code == seq!['#', '4', '4'] {
        Some(',')
    } else {
        None
    }
}

/// How one character is written: `&code;` where it has an escape code, else itself.
pub open spec fn escape_one(c: char) -> Seq<char> {
    match spec_escape_code(c) {
        Some(code) => seq!['&'] + code + seq![';'],
        None => seq![c],
    }
}

/// How a text is written: every character escaped in turn.
pub open spec fn escape_chars(s: Seq<char>) -> Seq<char>
    decreases s.len(),
{
    if s.len() == 0 {
        Seq::empty()
    } else {
        escape_chars(s.drop_last()) + escape_one(s.last())
    }
}

/// Decodes an escape code: `amp`, `#91`, `#93` and `#44` stand for `&`, `[`, `]` and `,`.
pub fn parse_code(code: &str) -> (r: Option<char>)
    ensures
        r == spec_parse_code(code@),
{
    let v = chars_of(code);
    if v.len() != 3 {
        return None;
    }
    if v[0] == 'a' && v[1] == 'm' && v[2] == 'p' {
        assert(v@ =~= seq!['a', 'm', 'p']);
        Some('&')
    } else if v[0] == '#' && v[1] == '9' && v[2] == '1' {
        assert(v@ =~= seq!['#', '9', '1']);
        Some('[')
    } else if v[0] == '#' && v[1] == '9' && v[2] == '3' {
        assert(v@ =~= seq!['#', '9', '3']);
        Some(']')
    } else if v[0] == '#' && v[1] == '4' && v[2] == '4' {
        assert(v@ =~= seq!['#', '4', '4']);
        Some(',')
    } else {
        None
    }
}

/// The escape code of a character that must be escaped (`&`, `[`, `]`, `,`), if it is one.
pub fn escape_char(code: char) -> (r: Option<&'static str>)
    ensures
        match r {
            Some(s) => spec_escape_code(code) == Some(s@),
            None => spec_escape_code(code) is None,
        },
{
    match code {
        '&' => {
            proof {
                reveal_strlit("amp");
            }
            Some("amp")
        },
        '[' => {
            proof {
                reveal_strlit("#91");
            }
            Some("#91")
        },
        ']' => {
            proof {
                reveal_strlit("#93");
            }
            Some("#93")
        },
        ',' => {
            proof {
                reveal_strlit("#44");
            }
            Some("#44")
        },
        _ => None,
    }
}

/// Why a number could not be read.
#[derive(Debug)]
pub enum NumberError {
    ParseInt(std::num::ParseIntError),
    ParseFloat(std::num::ParseFloatError),
}

/// A list of key–value pairs, each text taken as its characters.
pub type Entries = Seq<(Seq<char>, Seq<char>)>;

/// The pairs of `d`, each text taken as its characters.
pub open spec fn entries_view(d: Seq<(String, String)>) -> Entries {
    d.map_values(|p: (String, String)| (p.0@, p.1@))
}

/// No key occurs twice: the list is a map from keys to values.
pub open spec fn keys_distinct(d: Entries) -> bool {
    forall|i: int, j: int| 0 <= i < d.len() && 0 <= j < d.len() && i != j ==> d[i].0 != d[j].0
}

/// `i` is the first position of `d` that holds the key `k`.
pub open spec fn is_first_key(d: Entries, k: Seq<char>, i: int) -> bool {
    &&& 0 <= i < d.len()
    &&& d[i].0 == k
    &&& forall|j: int| 0 <= j < i ==> d[j].0 != k
}

/// The list after setting `k` to `v`: the first pair with key `k` takes the new value in
/// place, or the pair goes at the end when no pair has that key.
pub open spec fn spec_insert(d: Entries, k: Seq<char>, v: Seq<char>) -> Entries {
    if exists|i: int| is_first_key(d, k, i) {
        d.update(choose|i: int| is_first_key(d, k, i), (k, v))
    } else {
        d.push((k, v))
    }
}

/// The value that `d` holds for the key `k`, taken from its first pair with that key.
pub open spec fn spec_get(d: Entries, k: Seq<char>) -> Option<Seq<char>> {
    if exists|i: int| is_first_key(d, k, i) {
        Some(d[choose|i: int| is_first_key(d, k, i)].1)
    } else {
        None
    }
}

/// A CQ code: its type and its parameters, a list of key–value pairs in the order
/// in which they were set.
#[derive(Debug, Clone)]
pub struct CQCode {
    pub cq_type: String,
    pub data: Vec<(String, String)>,
}

impl View for CQCode {
    type V = (Seq<char>, Entries);

    open spec fn view(&self) -> (Seq<char>, Entries) {
        (self.cq_type@, entries_view(self.data@))
    }
}

impl CQCode {
    /// The parameters form a map: no key occurs twice.
    pub open spec fn wf(&self) -> bool {
        keys_distinct(self@.1)
    }

    /// A code of the given type without parameters.
    pub fn new(ty: &str) -> (c: CQCode)
        ensures
            c@ == (ty@, Seq::<(Seq<char>, Seq<char>)>::empty()),
            c.wf(),
    {
        CQCode { cq_type: ty.to_owned(), data: Vec::new() }
    }

    /// The parameters.
    pub fn data(&self) -> (d: &Vec<(String, String)>)
        ensures
            d == &self.data,
    {
        &self.data
    }

    /// The parameters, to be changed in place.
    pub fn data_mut(&mut self) -> (d: &mut Vec<(String, String)>)
        ensures
            *d == old(self).data,
            final(self).data == *final(d),
            final(self).cq_type == old(self).cq_type,
    {
        &mut self.data
    }

    /// Sets the parameter `key` to `value`, and gives back the value it had before, if any.
    pub fn insert(&mut self, key: String, value: String) -> (r: Option<String>)
        ensures
            final(self)@.0 == old(self)@.0,
            final(self)@.1 == spec_insert(old(self)@.1, key@, value@),
            r matches Some(v) ==> spec_get(old(self)@.1, key@) == Some(v@),
            r is None <==> spec_get(old(self)@.1, key@) is None,
            old(self).wf() ==> final(self).wf(),
    {
        let ghost d0 = self@.1;
        let mut i: usize = 0;
        while i < self.data.len()
            invariant
                i <= self.data@.len(),
                self@ == old(self)@,
                d0 == old(self)@.1,
                forall|j: int| 0 <= j < i ==> d0[j].0 != key@,
            decreases self.data@.len() - i,
        {
            if self.data[i].0 == key {
                assert(is_first_key(d0, key@, i as int));
                let old_pair = self.data.remove(i);
                self.data.insert(i, (key, value));
                proof {
                    let c = choose|c: int| is_first_key(d0, key@, c);
                    assert(c == i);
                    assert(self@.1 =~= d0.update(i as int, (key@, value@)));
                }
                return Some(old_pair.1);
            }
            i = i + 1;
        }
        assert(!exists|c: int| is_first_key(d0, key@, c));
        self.data.push((key, value));
        assert(self@.1 =~= d0.push((key@, value@)));
        None
    }
}

/// Sets each pair of `pairs` in turn, from the first to the last.
pub open spec fn insert_all(d: Entries, pairs: Entries) -> Entries
    decreases pairs.len(),
{
    if pairs.len() == 0 {
        d
    } else {
        spec_insert(insert_all(d, pairs.drop_last()), pairs.last().0, pairs.last().1)
    }
}

/// The pairs of string slices `d`, each taken as its characters.
pub open spec fn str_pairs_view(d: Seq<(&str, &str)>) -> Entries {
    d.map_values(|p: (&str, &str)| (p.0@, p.1@))
}

impl<'a, const N: usize> From<(&'a str, [(&'a str, &'a str); N])> for CQCode {
    /// A code of the given type with the given parameters, set in order (a later pair
    /// overrides an earlier one with the same key).
    fn from(value: (&'a str, [(&'a str, &'a str); N])) -> (r: CQCode)
        ensures
            r@ == (value.0@, insert_all(Seq::empty(), str_pairs_view(value.1@))),
            r.wf(),
    {
        let ty = value.0;
        let data = value.1;
        let mut code = CQCode::new(ty);
        let mut i: usize = 0;
        while i < N
            invariant
                i <= N,
                data@.len() == N,
                code.wf(),
                code@ == (ty@, insert_all(Seq::empty(), str_pairs_view(data@.take(i as int)))),
            decreases N - i,
        {
            let (key, val) = data[i];
            code.insert(key.to_owned(), val.to_owned());
            assert(str_pairs_view(data@.take(i + 1)).drop_last() =~= str_pairs_view(
                data@.take(i as int),
            ));
            i = i + 1;
        }
        assert(data@.take(N as int) =~= data@);
        code
    }
}

impl<'a, const N: usize> vstd::std_specs::convert::FromSpecImpl<(&'a str, [(&'a str, &'a str); N])> for CQCode {
    open spec fn obeys_from_spec() -> bool {
        false
    }

    open spec fn from_spec(v: (&'a str, [(&'a str, &'a str); N])) -> CQCode {
        arbitrary()
    }
}

/// Two codes are equal when they have the same type and the same parameters as maps: as
/// many pairs, and every pair of the first found, with its value, in the second.
pub open spec fn same_code(a: (Seq<char>, Entries), b: (Seq<char>, Entries)) -> bool {
    &&& a.0 == b.0
    &&& a.1.len() == b.1.len()
    &&& forall|i: int| 0 <= i < a.1.len() ==> spec_get(b.1, #[trigger] a.1[i].0) == Some(a.1[i].1)
}

impl CQCode {
    /// The value of the parameter `key`, if it is set.
    pub fn get(&self, key: &str) -> (r: Option<&String>)
        ensures
            match r {
                Some(v) => spec_get(self@.1, key@) == Some(v@),
                None => spec_get(self@.1, key@) is None,
            },
    {
        let ghost d = self@.1;
        let mut i: usize = 0;
        while i < self.data.len()
            invariant
                i <= self.data@.len(),
                d == self@.1,
                forall|j: int| 0 <= j < i ==> d[j].0 != key@,
            decreases self.data@.len() - i,
        {
            assert(d[i as int] == (self.data@[i as int].0@, self.data@[i as int].1@));
            if crate::text::str_eq(self.data[i].0.as_str(), key) {
                assert(is_first_key(d, key@, i as int));
                proof {
                    let c = choose|c: int| is_first_key(d, key@, c);
                    assert(c == i);
                }
                return Some(&self.data[i].1);
            }
            i = i + 1;
        }
        assert(!exists|c: int| is_first_key(d, key@, c));
        None
    }
}

impl PartialEq for CQCode {
    fn eq(&self, other: &CQCode) -> (r: bool) {
        if !crate::text::str_eq(self.cq_type.as_str(), other.cq_type.as_str()) {
            return false;
        }
        if self.data.len() != other.data.len() {
            return false;
        }
        let ghost a = self@.1;
        let ghost b = other@.1;
        let mut i: usize = 0;
        while i < self.data.len()
            invariant
                i <= self.data@.len(),
                a == self@.1,
                b == other@.1,
                forall|j: int| 0 <= j < i ==> spec_get(b, #[trigger] a[j].0) == Some(a[j].1),
            decreases self.data@.len() - i,
        {
            assert(a[i as int] == (self.data@[i as int].0@, self.data@[i as int].1@));
            match other.get(self.data[i].0.as_str()) {
                Some(v) => {
                    if !crate::text::str_eq(v.as_str(), self.data[i].1.as_str()) {
                        assert(spec_get(b, a[i as int].0) != Some(a[i as int].1));
                        return false;
                    }
                },
                None => {
                    assert(spec_get(b, a[i as int].0) != Some(a[i as int].1));
                    return false;
                },
            }
            i = i + 1;
        }
        true
    }
}

impl vstd::std_specs::cmp::PartialEqSpecImpl for CQCode {
    open spec fn obeys_eq_spec() -> bool {
        true
    }

    open spec fn eq_spec(&self, other: &CQCode) -> bool {
        same_code(self@, other@)
    }
}

} // verus!
