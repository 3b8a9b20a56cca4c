//! The captured fields of one rule-driven parse.
//!
//! Fields are kept under the names the rule gave them; a later capture under
//! the same name replaces the earlier one. The view of the collection is the
//! mathematical map from name (as a character sequence) to value.

use crate::value::{spec_value_u16, spec_value_u32, Value};
use vstd::prelude::*;
use vstd::string::StringSliceAdditionalSpecFns;
use vstd::utf8::encode_utf8_decode_utf8;

verus! {

/// What can go wrong when a field is read back.
#[derive(Debug, Clone, PartialEq, Eq)]
pub enum Error {
    /// The field exists but refused to convert.
    InvalidValue(crate::value::Error),
    /// No field of this name was captured.
    FieldNotFound(String),
    /// The field exists with a value of an unusable type.
    FieldValueIsInvalid(String),
}

/// Whether two string slices hold the same characters.
pub fn str_eq(a: &str, b: &str) -> (r: bool)
    ensures
        r <==> a@ == b@,
{
    let ab = a.as_bytes();
    let bb = b.as_bytes();
    if ab.len() != bb.len() {
        proof {
            assert(a.spec_bytes() != b.spec_bytes());
            encode_utf8_decode_utf8(a@);
            encode_utf8_decode_utf8(b@);
        }
        return false;
    }
    let n = ab.len();
    let mut i: usize = 0;
    while i < n
        invariant
            i <= n,
            n == ab@.len() == bb@.len(),
            ab@ == a.spec_bytes(),
            bb@ == b.spec_bytes(),
            forall|j: int| 0 <= j < i ==> ab@[j] == bb@[j],
        decreases n - i,
    {
        if ab[i] != bb[i] {
            proof {
                assert(a.spec_bytes() != b.spec_bytes());
                encode_utf8_decode_utf8(a@);
                encode_utf8_decode_utf8(b@);
            }
            return false;
        }
        i = i + 1;
    }
    proof {
        assert(a.spec_bytes() =~= b.spec_bytes());
        encode_utf8_decode_utf8(a@);
        encode_utf8_decode_utf8(b@);
    }
    true
}

/// The map described by a list of name/value pairs, later pairs overriding
/// earlier ones; names compare by their characters.
pub open spec fn fields_map(s: Seq<(&'static str, Value)>) -> Map<Seq<char>, Value>
    decreases s.len(),
{
    if s.len() == 0 {
        Map::empty()
    } else {
        fields_map(s.drop_last()).insert(s.last().0@, s.last().1)
    }
}

/// Names occur at most once in the pair list.
pub open spec fn field_names_unique(s: Seq<(&'static str, Value)>) -> bool {
    forall|i: int, j: int| 0 <= i < j < s.len() ==> s[i].0@ != s[j].0@
}

/// A name is in the map exactly when some pair holds it, and with unique
/// names each pair's value is the one the map holds for its name.
pub proof fn lemma_fields_map(s: Seq<(&'static str, Value)>)
    ensures
        forall|k: Seq<char>|
            #[trigger] fields_map(s).contains_key(k) <==> exists|i: int|
                0 <= i < s.len() && s[i].0@ == k,
        field_names_unique(s) ==> forall|i: int|
            0 <= i < s.len() ==> fields_map(s).contains_key(#[trigger] s[i].0@) && fields_map(s)[
                s[i].0@
            ] == s[i].1,
    decreases s.len(),
{
    if s.len() > 0 {
        lemma_fields_map(s.drop_last());
        assert forall|k: Seq<char>| #[trigger]
            fields_map(s).contains_key(k) implies exists|i: int|
            0 <= i < s.len() && s[i].0@ == k by {
            if k == s.last().0@ {
                assert(s[s.len() - 1].0@ == k);
            } else {
                assert(fields_map(s.drop_last()).contains_key(k));
                let i = choose|i: int|
                    0 <= i < s.drop_last().len() && s.drop_last()[i].0@ == k;
                assert(s[i] == s.drop_last()[i]);
                assert(s[i].0@ == k);
            }
        }
        assert forall|k: Seq<char>|
            (exists|i: int| 0 <= i < s.len() && s[i].0@ == k) implies #[trigger] fields_map(
            s,
        ).contains_key(k) by {
            let i = choose|i: int| 0 <= i < s.len() && s[i].0@ == k;
            if i < s.len() - 1 {
                assert(s.drop_last()[i] == s[i]);
                assert(exists|j: int|
                    0 <= j < s.drop_last().len() && s.drop_last()[j].0@ == k);
                assert(fields_map(s.drop_last()).contains_key(k));
            }
        }
        if field_names_unique(s) {
            assert(field_names_unique(s.drop_last()));
            assert forall|i: int| 0 <= i < s.len() implies fields_map(s).contains_key(
                #[trigger] s[i].0@,
            ) && fields_map(s)[s[i].0@] == s[i].1 by {
                if i < s.len() - 1 {
                    assert(s.drop_last()[i] == s[i]);
                    assert(s[i].0@ != s.last().0@);
                }
            }
        }
    }
}

/// Replacing the pair at a position keeps every other name and makes the map
/// hold the new value for the pair's name.
proof fn lemma_fields_map_update(s: Seq<(&'static str, Value)>, at: int, name: &'static str, v: Value)
    requires
        field_names_unique(s),
        0 <= at < s.len(),
        s[at].0@ == name@,
    ensures
        fields_map(s.update(at, (name, v))) == fields_map(s).insert(name@, v),
    decreases s.len(),
{
    let s2 = s.update(at, (name, v));
    if at == s.len() - 1 {
        assert(s2.drop_last() =~= s.drop_last());
        assert(fields_map(s2) == fields_map(s.drop_last()).insert(name@, v));
        assert(fields_map(s.drop_last()).insert(s.last().0@, s.last().1).insert(name@, v)
            =~= fields_map(s.drop_last()).insert(name@, v));
    } else {
        assert(field_names_unique(s.drop_last()));
        assert(s.drop_last()[at] == s[at]);
        lemma_fields_map_update(s.drop_last(), at, name, v);
        assert(s2.drop_last() =~= s.drop_last().update(at, (name, v)));
        assert(s2.last() == s.last());
        assert(fields_map(s2) == fields_map(s.drop_last()).insert(name@, v).insert(
            s.last().0@,
            s.last().1,
        ));
        assert(s[at].0@ != s.last().0@);
        assert(fields_map(s.drop_last()).insert(name@, v).insert(s.last().0@, s.last().1)
            =~= fields_map(s.drop_last()).insert(s.last().0@, s.last().1).insert(name@, v));
    }
}

/// The fields captured by a parse, under their rule-given names.
#[derive(Debug)]
pub struct ParsedInfo {
    /// Whether the parsed TIFF was little-endian.
    pub is_le: bool,
    /// The captured name/value pairs; `wf()` keeps the names unique.
    pub content: Vec<(&'static str, Value)>,
}

impl View for ParsedInfo {
    type V = Map<Seq<char>, Value>;

    open spec fn view(&self) -> Map<Seq<char>, Value> {
        fields_map(self.content@)
    }
}

impl ParsedInfo {
    /// Every captured name occurs exactly once in the pair list.
    pub open spec fn wf(&self) -> bool {
        field_names_unique(self.content@)
    }

    /// An empty capture set.
    pub fn new(is_le: bool) -> (r: ParsedInfo)
        ensures
            r@ == Map::<Seq<char>, Value>::empty(),
            r.wf(),
            r.is_le == is_le,
    {
        ParsedInfo { is_le, content: Vec::new() }
    }

    /// Stores a value under a name, replacing any previous value of that name.
    pub fn insert(&mut self, name: &'static str, v: Value)
        requires
            old(self).wf(),
        ensures
            final(self).wf(),
            final(self)@ == old(self)@.insert(name@, v),
            final(self).is_le == old(self).is_le,
    {
        let n = self.content.len();
        let mut i: usize = 0;
        while i < n
            invariant
                old(self).wf(),
                self.content@ == old(self).content@,
                self.is_le == old(self).is_le,
                n == self.content@.len(),
                i <= n,
                forall|j: int| 0 <= j < i ==> self.content@[j].0@ != name@,
            decreases n - i,
        {
            if str_eq(self.content[i].0, name) {
                proof {
                    lemma_fields_map_update(self.content@, i as int, name, v);
                }
                self.content[i] = (name, v);
                proof {
                    assert(self.content@ =~= old(self).content@.update(i as int, (name, v)));
                    assert forall|a: int, b: int|
                        0 <= a < b < self.content@.len() implies self.content@[a].0@
                        != self.content@[b].0@ by {
                        assert(old(self).content@[a].0@ != old(self).content@[b].0@);
                    }
                }
                return ;
            }
            i = i + 1;
        }
        proof {
            lemma_fields_map(self.content@);
            if self@.contains_key(name@) {
                let j = choose|j: int|
                    0 <= j < self.content@.len() && self.content@[j].0@ == name@;
                assert(false);
            }
        }
        self.content.push((name, v));
        proof {
            assert(self.content@.drop_last() =~= old(self).content@);
            assert(self.content@.last() == (name, v));
            assert forall|a: int, b: int|
                0 <= a < b < self.content@.len() implies self.content@[a].0@
                != self.content@[b].0@ by {
                if b == self.content@.len() - 1 {
                    assert(self.content@[a] == old(self).content@[a]);
                    assert(self.content@[a].0@ != name@);
                } else {
                    assert(self.content@[a] == old(self).content@[a]);
                    assert(self.content@[b] == old(self).content@[b]);
                }
            }
        }
    }

    /// The value captured under a name, if any.
    pub fn get(&self, name: &str) -> (r: Option<&Value>)
        requires
            self.wf(),
        ensures
            r is Some <==> self@.contains_key(name@),
            r matches Some(v) ==> *v == self@[name@],
    {
        let n = self.content.len();
        let mut i: usize = 0;
        while i < n
            invariant
                self.wf(),
                n == self.content@.len(),
                i <= n,
                forall|j: int| 0 <= j < i ==> self.content@[j].0@ != name@,
            decreases n - i,
        {
            if str_eq(self.content[i].0, name) {
                proof {
                    lemma_fields_map(self.content@);
                    assert(self.content@[i as int].0@ == name@);
                }
                return Some(&self.content[i].1);
            }
            i = i + 1;
        }
        proof {
            lemma_fields_map(self.content@);
            if self@.contains_key(name@) {
                let j = choose|j: int|
                    0 <= j < self.content@.len() && self.content@[j].0@ == name@;
                assert(false);
            }
        }
        None
    }

    /// The field as a 16-bit integer; absent or non-numeric fields refuse.
    pub fn u16(&self, name: &str) -> (r: Result<u16, Error>)
        requires
            self.wf(),
        ensures
            !self@.contains_key(name@) ==> (r matches Err(e) && e matches Error::FieldNotFound(s)
                && s@ == name@),
            self@.contains_key(name@) ==> r == match spec_value_u16(self@[name@]) {
                Ok(v) => Ok::<u16, Error>(v),
                Err(e) => Err::<u16, Error>(Error::InvalidValue(e)),
            },
    {
        match self.get(name) {
            Some(v) => match v.u16() {
                Ok(x) => Ok(x),
                Err(e) => Err(Error::InvalidValue(e)),
            },
            None => Err(Error::FieldNotFound(name.to_owned())),
        }
    }

    /// The field as a 32-bit integer; absent or non-numeric fields refuse.
    pub fn u32(&self, name: &str) -> (r: Result<u32, Error>)
        requires
            self.wf(),
        ensures
            !self@.contains_key(name@) ==> (r matches Err(e) && e matches Error::FieldNotFound(s)
                && s@ == name@),
            self@.contains_key(name@) ==> r == match spec_value_u32(self@[name@]) {
                Ok(v) => Ok::<u32, Error>(v),
                Err(e) => Err::<u32, Error>(Error::InvalidValue(e)),
            },
    {
        match self.get(name) {
            Some(v) => match v.u32() {
                Ok(x) => Ok(x),
                Err(e) => Err(Error::InvalidValue(e)),
            },
            None => Err(Error::FieldNotFound(name.to_owned())),
        }
    }

    /// The field as a signed 32-bit integer, by reinterpreting the unsigned
    /// reading; absent or non-numeric fields refuse.
    pub fn i32(&self, name: &str) -> (r: Result<i32, Error>)
        requires
            self.wf(),
        ensures
            !self@.contains_key(name@) ==> (r matches Err(e) && e matches Error::FieldNotFound(s)
                && s@ == name@),
            self@.contains_key(name@) ==> r == match spec_value_u32(self@[name@]) {
                Ok(v) => Ok::<i32, Error>(v as i32),
                Err(_) => Err::<i32, Error>(
                    Error::InvalidValue(crate::value::Error::ValueTypeIsNotDesired("i32")),
                ),
            },
    {
        match self.get(name) {
            Some(v) => match v.i32() {
                Ok(x) => Ok(x),
                Err(e) => Err(Error::InvalidValue(e)),
            },
            None => Err(Error::FieldNotFound(name.to_owned())),
        }
    }

    /// The field as an offset; absent or non-numeric fields refuse.
    pub fn usize(&self, name: &str) -> (r: Result<usize, Error>)
        requires
            self.wf(),
        ensures
            !self@.contains_key(name@) ==> (r matches Err(e) && e matches Error::FieldNotFound(s)
                && s@ == name@),
            self@.contains_key(name@) ==> r == match spec_value_u32(self@[name@]) {
                Ok(v) => Ok::<usize, Error>(v as usize),
                Err(_) => Err::<usize, Error>(
                    Error::InvalidValue(crate::value::Error::ValueTypeIsNotDesired("usize")),
                ),
            },
    {
        match self.get(name) {
            Some(v) => match v.usize() {
                Ok(x) => Ok(x),
                Err(e) => Err(Error::InvalidValue(e)),
            },
            None => Err(Error::FieldNotFound(name.to_owned())),
        }
    }

    /// The field's rational as its (numerator, denominator) pair.
    pub fn r64(&self, name: &str) -> (r: Result<(i32, u32), Error>)
        requires
            self.wf(),
        ensures
            !self@.contains_key(name@) ==> (r matches Err(e) && e matches Error::FieldNotFound(s)
                && s@ == name@),
            self@.contains_key(name@) ==> (self@[name@] matches Value::R64(num, den) ==> r == Ok::<
                (i32, u32),
                Error,
            >((num, den))) && (!(self@[name@] matches Value::R64(_, _)) ==> r == Err::<
                (i32, u32),
                Error,
            >(Error::InvalidValue(crate::value::Error::ValueTypeIsNotDesired("r64")))),
    {
        match self.get(name) {
            Some(v) => match v.r64() {
                Ok(x) => Ok(x),
                Err(e) => Err(Error::InvalidValue(e)),
            },
            None => Err(Error::FieldNotFound(name.to_owned())),
        }
    }

    /// The field's text; absent or non-text fields refuse.
    pub fn str<'a>(&'a self, name: &str) -> (r: Result<&'a str, Error>)
        requires
            self.wf(),
        ensures
            !self@.contains_key(name@) ==> (r matches Err(e) && e matches Error::FieldNotFound(s)
                && s@ == name@),
            self@.contains_key(name@) ==> (self@[name@] matches Value::Str(s) ==> (r matches Ok(t)
                && t@ == s@)) && (!(self@[name@] matches Value::Str(_)) ==> r == Err::<
                &str,
                Error,
            >(Error::InvalidValue(crate::value::Error::ValueTypeIsNotDesired("String")))),
    {
        match self.get(name) {
            Some(v) => match v.str() {
                Ok(x) => Ok(x),
                Err(e) => Err(Error::InvalidValue(e)),
            },
            None => Err(Error::FieldNotFound(name.to_owned())),
        }
    }

    /// The field's 32-bit value as four bytes in this parse's byte order.
    pub fn u8a4(&self, name: &str) -> (r: Result<[u8; 4], Error>)
        requires
            self.wf(),
        ensures
            !self@.contains_key(name@) ==> (r matches Err(e) && e matches Error::FieldNotFound(s)
                && s@ == name@),
            self@.contains_key(name@) ==> (self@[name@] matches Value::U32(x) ==> (r matches Ok(b)
                && b@ == crate::bytes::spec_u32_to_bytes(x, self.is_le))) && (!(
            self@[name@] matches Value::U32(_)) ==> r == Err::<[u8; 4], Error>(
                Error::InvalidValue(crate::value::Error::ValueTypeIsNotDesired("U32")),
            )),
    {
        match self.get(name) {
            Some(v) => match v.u8a4(self.is_le) {
                Ok(x) => Ok(x),
                Err(e) => Err(Error::InvalidValue(e)),
            },
            None => Err(Error::FieldNotFound(name.to_owned())),
        }
    }
}

} // verus!
