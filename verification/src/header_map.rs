//! The header map: header fields by name, whatever their case.

use vstd::prelude::*;
use crate::bytes::{
    copy_range, is_ctl, is_whitespace, lemma_trim_ows, lower, lower_seq, spec_is_ctl,
    spec_is_whitespace, spec_lower, trim_bounds, trim_ows, COLON,
};
use crate::fields::{
    add_field, fields_wf, is_raw_name, lemma_add_field_wf, lemma_lower_seq, lemma_position_of,
    lemma_position_of_is, lookup, position_of, Fields,
};

verus! {

#[derive(Debug, Clone, PartialEq, Eq)]
struct HeaderEntry {
    name: Vec<u8>,
    values: Vec<Vec<u8>>,
}

/// Header fields by name. Names are kept in lower case, so that lookups
/// ignore case; a name that occurs several times keeps all its values.
#[derive(Debug, Clone, PartialEq, Eq)]
pub struct HeaderMap {
    entries: Vec<HeaderEntry>,
}

/// The values of an entry as byte sequences.
pub open spec fn values_view(values: Seq<Vec<u8>>) -> Seq<Seq<u8>> {
    Seq::new(values.len(), |k: int| values[k]@)
}

impl View for HeaderMap {
    type V = Fields;

    closed spec fn view(&self) -> Fields {
        Seq::new(
            self.entries@.len(),
            |i: int| (self.entries@[i].name@, values_view(self.entries@[i].values@)),
        )
    }
}

impl HeaderMap {
    /// The map satisfies the invariant of header maps.
    pub open spec fn wf(&self) -> bool {
        fields_wf(self@)
    }

    /// The empty map.
    pub fn new() -> (m: HeaderMap)
        ensures
            m@ == Seq::<(Seq<u8>, Seq<Seq<u8>>)>::empty(),
            m.wf(),
    {
        let m = HeaderMap { entries: Vec::new() };
        assert(m@ =~= Seq::<(Seq<u8>, Seq<Seq<u8>>)>::empty());
        m
    }

    /// Number of distinct names.
    pub fn len(&self) -> (n: usize)
        ensures
            n == self@.len(),
    {
        self.entries.len()
    }

    /// Whether the map holds no field at all.
    pub fn is_empty(&self) -> (r: bool)
        ensures
            r == (self@.len() == 0),
    {
        self.entries.len() == 0
    }

    /// Index of the entry whose name is `name` lower-cased.
    fn position(&self, name: &[u8]) -> (i: usize)
        ensures
            i == position_of(self@, lower_seq(name@), 0),
            i <= self.entries@.len(),
    {
        let ghost wanted = lower_seq(name@);
        let mut i: usize = 0;
        while i < self.entries.len()
            invariant
                0 <= i <= self.entries@.len(),
                wanted == lower_seq(name@),
                forall|k: int| 0 <= k < i ==> self@[k].0 != wanted,
            decreases self.entries@.len() - i,
        {
            if same_name(self.entries[i].name.as_slice(), name) {
                assert(self@[i as int].0 == wanted);
                proof {
                    lemma_position_of_is(self@, wanted, 0, i as int);
                }
                return i;
            }
            assert(self@[i as int].0 != wanted);
            i = i + 1;
        }
        proof {
            lemma_position_of_is(self@, wanted, 0, i as int);
        }
        i
    }

    /// The values of `name`, whatever its case, in the order in which they
    /// arrived.
    pub fn get(&self, name: &[u8]) -> (r: Option<&Vec<Vec<u8>>>)
        ensures
            match r {
                Some(values) => lookup(self@, lower_seq(name@)) == Some(values_view(values@)),
                None => lookup(self@, lower_seq(name@)) is None,
            },
    {
        let i = self.position(name);
        if i < self.entries.len() {
            Some(&self.entries[i].values)
        } else {
            None
        }
    }

    /// Whether `name`, whatever its case, has an entry.
    pub fn contains(&self, name: &[u8]) -> (r: bool)
        ensures
            r == lookup(self@, lower_seq(name@)) is Some,
    {
        let i = self.position(name);
        i < self.entries.len()
    }

    /// The name of the `i`-th entry.
    pub fn name_at(&self, i: usize) -> (r: &Vec<u8>)
        requires
            i < self@.len(),
        ensures
            r@ == self@[i as int].0,
    {
        &self.entries[i].name
    }

    /// The values of the `i`-th entry.
    pub fn values_at(&self, i: usize) -> (r: &Vec<Vec<u8>>)
        requires
            i < self@.len(),
        ensures
            values_view(r@) == self@[i as int].1,
    {
        &self.entries[i].values
    }

    /// Records one more occurrence of a field. The name is checked and
    /// lower-cased, the value trimmed of optional whitespace. A name that is
    /// empty, or holds whitespace, a control character or a colon, is
    /// refused and leaves the map as it was.
    pub fn insert(&mut self, name: &[u8], value: &[u8]) -> (ok: bool)
        ensures
            ok == is_raw_name(name@),
            final(self)@ == if ok {
                add_field(old(self)@, lower_seq(name@), trim_ows(value@))
            } else {
                old(self)@
            },
            old(self).wf() ==> final(self).wf(),
    {
        assert(name@.subrange(0, name@.len() as int) =~= name@);
        assert(value@.subrange(0, value@.len() as int) =~= value@);
        match stored_name(name, name.len()) {
            None => false,
            Some(stored) => {
                let (a, b) = trim_bounds(value, 0, value.len());
                let trimmed = copy_range(value, a, b);
                proof {
                    lemma_trim_ows(value@);
                    lemma_lower_seq(name@);
                    if old(self).wf() {
                        lemma_add_field_wf(old(self)@, stored@, trimmed@);
                    }
                }
                self.push_field(stored, trimmed);
                true
            },
        }
    }

    /// Records one more occurrence of `name`, which is taken as it stands.
    pub(crate) fn push_field(&mut self, name: Vec<u8>, value: Vec<u8>)
        requires
            name@ == lower_seq(name@),
        ensures
            final(self)@ == add_field(old(self)@, name@, value@),
    {
        let i = self.position(name.as_slice());
        if i < self.entries.len() {
            let ghost before = self.entries@;
            self.entries[i].values.push(value);
            assert(self@ =~= add_field(old(self)@, name@, value@)) by {
                lemma_position_of(old(self)@, name@, 0);
                assert(old(self)@[i as int].0 == name@);
                assert(self.entries@.len() == before.len());
                assert(self.entries@[i as int].name == before[i as int].name);
                assert(values_view(self.entries@[i as int].values@) =~= values_view(
                    before[i as int].values@,
                ).push(value@));
                assert forall|k: int| 0 <= k < before.len() && k != i implies self.entries@[k]
                    == before[k] by {}
            }
        } else {
            let mut values: Vec<Vec<u8>> = Vec::new();
            values.push(value);
            assert(values_view(values@) =~= seq![value@]);
            self.entries.push(HeaderEntry { name, values });
            assert(self@ =~= add_field(old(self)@, name@, value@));
        }
    }
}

impl Default for HeaderMap {
    fn default() -> (m: HeaderMap)
        ensures
            m@ == Seq::<(Seq<u8>, Seq<Seq<u8>>)>::empty(),
    {
        HeaderMap::new()
    }
}

/// Checks the raw name `s[..to]` and returns it in lower case.
pub(crate) fn stored_name(s: &[u8], to: usize) -> (r: Option<Vec<u8>>)
    requires
        to <= s.len(),
    ensures
        match r {
            Some(name) => is_raw_name(s@.subrange(0, to as int)) && name@ == lower_seq(
                s@.subrange(0, to as int),
            ),
            None => !is_raw_name(s@.subrange(0, to as int)),
        },
{
    let ghost raw = s@.subrange(0, to as int);
    if to == 0 {
        return None;
    }
    let mut name: Vec<u8> = Vec::new();
    let mut i: usize = 0;
    while i < to
        invariant
            0 <= i <= to <= s.len(),
            raw == s@.subrange(0, to as int),
            name@.len() == i,
            forall|k: int| 0 <= k < i ==> name@[k] == spec_lower(raw[k]),
            forall|k: int|
                0 <= k < i ==> !spec_is_whitespace(#[trigger] raw[k]) && !spec_is_ctl(raw[k])
                    && raw[k] != COLON,
        decreases to - i,
    {
        let b = s[i];
        assert(raw[i as int] == b);
        if is_whitespace(b) || is_ctl(b) || b == COLON {
            return None;
        }
        name.push(lower(b));
        i = i + 1;
    }
    assert(name@ =~= lower_seq(raw));
    Some(name)
}

/// Compares a stored name with `name` lower-cased.
fn same_name(stored: &[u8], name: &[u8]) -> (r: bool)
    ensures
        r == (stored@ == lower_seq(name@)),
{
    if stored.len() != name.len() {
        return false;
    }
    let mut i: usize = 0;
    while i < name.len()
        invariant
            stored.len() == name.len(),
            0 <= i <= name.len(),
            forall|k: int| 0 <= k < i ==> stored@[k] == lower_seq(name@)[k],
        decreases name.len() - i,
    {
        if stored[i] != lower(name[i]) {
            assert(stored@[i as int] != lower_seq(name@)[i as int]);
            return false;
        }
        i = i + 1;
    }
    assert(stored@ =~= lower_seq(name@));
    true
}

} // verus!
