//! The abstract header map: what a header map holds, as plain sequences,
//! and how header fields accumulate in it.

use vstd::prelude::*;
use crate::bytes::{
    is_lower_case, is_trimmed, lower_seq, spec_is_ctl, spec_is_upper, spec_is_whitespace, COLON,
};

verus! {

/// The abstract header map: one entry per distinct name, in the order in
/// which the names first occurred, each with its values in the order in
/// which they occurred.
pub type Fields = Seq<(Seq<u8>, Seq<Seq<u8>>)>;

/// Index of the entry of `name` at or after `from`; `fields.len()` when
/// there is none.
pub open spec fn position_of(fields: Fields, name: Seq<u8>, from: int) -> int
    decreases fields.len() - from,
{
    if from < 0 || from >= fields.len() {
        fields.len() as int
    } else if fields[from].0 == name {
        from
    } else {
        position_of(fields, name, from + 1)
    }
}

/// The values stored under `name`, which is matched as it stands.
pub open spec fn lookup(fields: Fields, name: Seq<u8>) -> Option<Seq<Seq<u8>>> {
    let i = position_of(fields, name, 0);
    if i < fields.len() {
        Some(fields[i].1)
    } else {
        None
    }
}

/// `fields` after one more occurrence of `name` with `value`: the value
/// joins the entry of that name, or starts a new entry at the end.
pub open spec fn add_field(fields: Fields, name: Seq<u8>, value: Seq<u8>) -> Fields {
    let i = position_of(fields, name, 0);
    if i < fields.len() {
        fields.update(i, (name, fields[i].1.push(value)))
    } else {
        fields.push((name, seq![value]))
    }
}

/// A header name as it is written on the wire: not empty, and free of
/// whitespace, control characters and colons.
pub open spec fn is_raw_name(s: Seq<u8>) -> bool {
    s.len() > 0 && forall|i: int|
        0 <= i < s.len() ==> !spec_is_whitespace(#[trigger] s[i]) && !spec_is_ctl(s[i]) && s[i]
            != COLON
}

/// A header name as it is stored: a raw name in lower case.
pub open spec fn is_stored_name(s: Seq<u8>) -> bool {
    is_raw_name(s) && is_lower_case(s)
}

/// The invariant of a header map: names are stored names and pairwise
/// distinct, every entry has at least one value, and values are trimmed.
pub open spec fn fields_wf(fields: Fields) -> bool {
    &&& forall|i: int| 0 <= i < fields.len() ==> is_stored_name(#[trigger] fields[i].0)
    &&& forall|i: int| 0 <= i < fields.len() ==> (#[trigger] fields[i]).1.len() > 0
    &&& forall|i: int, k: int|
        0 <= i < fields.len() && 0 <= k < fields[i].1.len() ==> is_trimmed(
            #[trigger] fields[i].1[k],
        )
    &&& forall|i: int, j: int|
        0 <= i < j < fields.len() ==> (#[trigger] fields[i]).0 != (#[trigger] fields[j]).0
}

/// `position_of` returns the least index at or after `from` whose entry
/// has the name.
pub proof fn lemma_position_of(fields: Fields, name: Seq<u8>, from: int)
    requires
        0 <= from <= fields.len(),
    ensures
        from <= position_of(fields, name, from) <= fields.len(),
        forall|k: int| from <= k < position_of(fields, name, from) ==> fields[k].0 != name,
        position_of(fields, name, from) < fields.len() ==> fields[position_of(
            fields,
            name,
            from,
        )].0 == name,
    decreases fields.len() - from,
{
    if from < fields.len() && fields[from].0 != name {
        lemma_position_of(fields, name, from + 1);
    }
}

/// An index that is reached without meeting the name, and whose entry has
/// the name or which is the end of `fields`, is the one `position_of`
/// returns.
pub proof fn lemma_position_of_is(fields: Fields, name: Seq<u8>, from: int, j: int)
    requires
        0 <= from <= j <= fields.len(),
        forall|k: int| from <= k < j ==> fields[k].0 != name,
        j < fields.len() ==> fields[j].0 == name,
    ensures
        position_of(fields, name, from) == j,
    decreases j - from,
{
    if from < j {
        lemma_position_of_is(fields, name, from + 1, j);
    }
}

/// Lower-casing twice is lower-casing once, and a raw name stays one.
pub proof fn lemma_lower_seq(s: Seq<u8>)
    ensures
        lower_seq(lower_seq(s)) == lower_seq(s),
        is_lower_case(lower_seq(s)),
        is_raw_name(s) ==> is_stored_name(lower_seq(s)),
        is_lower_case(s) ==> lower_seq(s) == s,
{
    assert(lower_seq(lower_seq(s)) =~= lower_seq(s));
    if is_raw_name(s) {
        assert forall|i: int| 0 <= i < s.len() implies !spec_is_whitespace(
            #[trigger] lower_seq(s)[i],
        ) && !spec_is_ctl(lower_seq(s)[i]) && lower_seq(s)[i] != COLON by {
            assert(!spec_is_whitespace(s[i]));
        }
    }
    if is_lower_case(s) {
        assert forall|i: int| 0 <= i < s.len() implies lower_seq(s)[i] == s[i] by {
            assert(!spec_is_upper(s[i]));
        }
        assert(lower_seq(s) =~= s);
    }
}

/// Adding a stored name with a trimmed value keeps the invariant.
pub proof fn lemma_add_field_wf(fields: Fields, name: Seq<u8>, value: Seq<u8>)
    requires
        fields_wf(fields),
        is_stored_name(name),
        is_trimmed(value),
    ensures
        fields_wf(add_field(fields, name, value)),
{
    lemma_position_of(fields, name, 0);
    let i = position_of(fields, name, 0);
    let after = add_field(fields, name, value);
    if i < fields.len() {
        assert forall|j: int, k: int|
            0 <= j < after.len() && 0 <= k < after[j].1.len() implies is_trimmed(
            #[trigger] after[j].1[k],
        ) by {
            if j == i && k < fields[i].1.len() {
                assert(after[j].1[k] == fields[i].1[k]);
            } else if j != i {
                assert(after[j].1[k] == fields[j].1[k]);
            }
        }
        assert forall|j: int| 0 <= j < after.len() implies is_stored_name(
            #[trigger] after[j].0,
        ) by {
            assert(after[j].0 == fields[j].0);
        }
        assert forall|j: int| 0 <= j < after.len() implies (#[trigger] after[j]).1.len()
            > 0 by {
            if j != i {
                assert(after[j] == fields[j]);
            }
        }
        assert forall|j: int, k: int| 0 <= j < k < after.len() implies (#[trigger] after[j]).0
            != (#[trigger] after[k]).0 by {
            assert(after[j].0 == fields[j].0);
            assert(after[k].0 == fields[k].0);
        }
    } else {
        assert forall|j: int, k: int|
            0 <= j < after.len() && 0 <= k < after[j].1.len() implies is_trimmed(
            #[trigger] after[j].1[k],
        ) by {
            if j < fields.len() {
                assert(after[j].1[k] == fields[j].1[k]);
            }
        }
        assert forall|j: int| 0 <= j < after.len() implies is_stored_name(
            #[trigger] after[j].0,
        ) by {
            if j < fields.len() {
                assert(after[j].0 == fields[j].0);
            }
        }
        assert forall|j: int| 0 <= j < after.len() implies (#[trigger] after[j]).1.len()
            > 0 by {
            if j < fields.len() {
                assert(after[j] == fields[j]);
            }
        }
        assert forall|j: int, k: int| 0 <= j < k < after.len() implies (#[trigger] after[j]).0
            != (#[trigger] after[k]).0 by {
            assert(after[j] == fields[j]);
            if k < fields.len() {
                assert(after[k] == fields[k]);
            }
        }
    }
}

/// Header fields as they arrive: name and value, one pair per header line.
pub type Pairs = Seq<(Seq<u8>, Seq<u8>)>;

/// `fields` after the pairs have been added to it, one after the other.
pub open spec fn collect_into(fields: Fields, pairs: Pairs) -> Fields
    decreases pairs.len(),
{
    if pairs.len() == 0 {
        fields
    } else {
        add_field(collect_into(fields, pairs.drop_last()), pairs.last().0, pairs.last().1)
    }
}

/// The header map that the pairs give when they are added to an empty one.
pub open spec fn collect(pairs: Pairs) -> Fields {
    collect_into(Seq::empty(), pairs)
}

/// The values that the pairs give for `name`, in the order of the pairs.
pub open spec fn values_of(pairs: Pairs, name: Seq<u8>) -> Seq<Seq<u8>>
    decreases pairs.len(),
{
    if pairs.len() == 0 {
        Seq::empty()
    } else if pairs.last().0 == name {
        values_of(pairs.drop_last(), name).push(pairs.last().1)
    } else {
        values_of(pairs.drop_last(), name)
    }
}

/// No two pairs have the same name.
pub open spec fn names_distinct(pairs: Pairs) -> bool {
    forall|i: int, j: int|
        0 <= i < j < pairs.len() ==> (#[trigger] pairs[i]).0 != (#[trigger] pairs[j]).0
}

/// Every pair has a stored name and a trimmed value.
pub open spec fn pairs_wf(pairs: Pairs) -> bool {
    forall|i: int|
        0 <= i < pairs.len() ==> is_stored_name((#[trigger] pairs[i]).0) && is_trimmed(
            pairs[i].1,
        )
}

/// The values under a name after more values have arrived for it.
pub open spec fn joined(before: Option<Seq<Seq<u8>>>, added: Seq<Seq<u8>>) -> Option<
    Seq<Seq<u8>>,
> {
    match before {
        Some(values) => Some(values + added),
        None => if added.len() > 0 {
            Some(added)
        } else {
            None
        },
    }
}

/// Adding a field adds its value after the values that its name already
/// has, and leaves every other name as it was.
pub proof fn lemma_add_field_lookup(
    fields: Fields,
    name: Seq<u8>,
    value: Seq<u8>,
    key: Seq<u8>,
)
    ensures
        lookup(add_field(fields, name, value), key) == if key == name {
            joined(lookup(fields, name), seq![value])
        } else {
            lookup(fields, key)
        },
        add_field(fields, name, value).len() == if lookup(fields, name) is Some {
            fields.len()
        } else {
            fields.len() + 1
        },
{
    lemma_position_of(fields, name, 0);
    lemma_position_of(fields, key, 0);
    let i = position_of(fields, name, 0);
    let j = position_of(fields, key, 0);
    let after = add_field(fields, name, value);
    if i < fields.len() {
        assert forall|k: int| 0 <= k < after.len() implies (#[trigger] after[k]).0
            == fields[k].0 by {}
        if key == name {
            lemma_position_of_is(after, name, 0, i);
            assert(fields[i].1.push(value) =~= fields[i].1 + seq![value]);
        } else {
            lemma_position_of_is(after, key, 0, j);
        }
    } else {
        if key == name {
            lemma_position_of_is(after, name, 0, i);
        } else if j < fields.len() {
            lemma_position_of_is(after, key, 0, j);
        } else {
            lemma_position_of_is(after, key, 0, after.len() as int);
        }
    }
}

/// A name has values among the pairs exactly if one of the pairs has it.
pub proof fn lemma_values_of(pairs: Pairs, name: Seq<u8>)
    ensures
        values_of(pairs, name).len() > 0 <==> exists|i: int|
            0 <= i < pairs.len() && (#[trigger] pairs[i]).0 == name,
        values_of(pairs, name).len() <= pairs.len(),
    decreases pairs.len(),
{
    if pairs.len() > 0 {
        let init = pairs.drop_last();
        lemma_values_of(init, name);
        if pairs.last().0 == name {
            assert(pairs[pairs.len() - 1].0 == name);
        } else if values_of(init, name).len() > 0 {
            let i = choose|i: int| 0 <= i < init.len() && (#[trigger] init[i]).0 == name;
            assert(pairs[i].0 == name);
        } else {
            assert forall|i: int| 0 <= i < pairs.len() implies (#[trigger] pairs[i]).0
                != name by {
                if i < init.len() {
                    assert(init[i].0 != name);
                }
            }
        }
    }
}

/// After the pairs have been added, each name has the values it had
/// before, followed by the values that the pairs give for it, in the
/// order of the pairs: repeated names accumulate, and nothing is lost.
pub proof fn lemma_collect_into_lookup(fields: Fields, pairs: Pairs, key: Seq<u8>)
    ensures
        lookup(collect_into(fields, pairs), key) == joined(
            lookup(fields, key),
            values_of(pairs, key),
        ),
    decreases pairs.len(),
{
    if pairs.len() == 0 {
        if lookup(fields, key) is Some {
            assert(lookup(fields, key).unwrap() + Seq::<Seq<u8>>::empty() =~= lookup(
                fields,
                key,
            ).unwrap());
        }
    } else {
        let init = pairs.drop_last();
        let (name, value) = pairs.last();
        let so_far = collect_into(fields, init);
        lemma_collect_into_lookup(fields, init, key);
        lemma_add_field_lookup(so_far, name, value, key);
        if key == name {
            let told = values_of(init, key);
            match lookup(fields, key) {
                Some(values) => {
                    assert((values + told) + seq![value] =~= values + told.push(value));
                },
                None => {
                    assert(told + seq![value] =~= told.push(value));
                },
            }
        }
    }
}

/// The map that the pairs give holds, for each name, exactly the values
/// that the pairs give for it, in their order; a name that no pair has is
/// absent.
pub proof fn lemma_collect_lookup(pairs: Pairs, key: Seq<u8>)
    ensures
        lookup(collect(pairs), key) == if values_of(pairs, key).len() > 0 {
            Some(values_of(pairs, key))
        } else {
            None
        },
{
    lemma_collect_into_lookup(Seq::empty(), pairs, key);
}

/// Pairs with well-formed names and values, added to a well-formed map,
/// give a well-formed map: in particular every name in it is in lower
/// case, and no name has two entries.
pub proof fn lemma_collect_into_wf(fields: Fields, pairs: Pairs)
    requires
        fields_wf(fields),
        pairs_wf(pairs),
    ensures
        fields_wf(collect_into(fields, pairs)),
    decreases pairs.len(),
{
    if pairs.len() > 0 {
        let init = pairs.drop_last();
        assert forall|i: int| 0 <= i < init.len() implies is_stored_name((#[trigger] init[i]).0)
            && is_trimmed(init[i].1) by {
            assert(init[i] == pairs[i]);
        }
        lemma_collect_into_wf(fields, init);
        assert(is_stored_name(pairs[pairs.len() - 1].0));
        lemma_add_field_wf(collect_into(fields, init), pairs.last().0, pairs.last().1);
    }
}

/// As many pairs with as many different names give exactly as many
/// entries: one for each pair, in the order of the pairs, each with the
/// one value of its pair.
pub proof fn lemma_collect_distinct(pairs: Pairs)
    requires
        names_distinct(pairs),
    ensures
        collect(pairs) == Seq::new(pairs.len(), |i: int| (pairs[i].0, seq![pairs[i].1])),
    decreases pairs.len(),
{
    let entries = Seq::new(pairs.len(), |i: int| (pairs[i].0, seq![pairs[i].1]));
    if pairs.len() == 0 {
        assert(collect(pairs) =~= entries);
    } else {
        let init = pairs.drop_last();
        let (name, value) = pairs.last();
        assert(names_distinct(init)) by {
            assert forall|i: int, j: int| 0 <= i < j < init.len() implies (#[trigger] init[i]).0
                != (#[trigger] init[j]).0 by {
                assert(init[i] == pairs[i]);
                assert(init[j] == pairs[j]);
            }
        }
        lemma_collect_distinct(init);
        let so_far = collect(init);
        assert forall|k: int| 0 <= k < so_far.len() implies so_far[k].0 != name by {
            assert(so_far[k].0 == pairs[k].0);
            assert(pairs[pairs.len() - 1].0 == name);
        }
        lemma_position_of_is(so_far, name, 0, so_far.len() as int);
        assert(collect(pairs) =~= entries);
    }
}

/// The map never has more entries than there were pairs, and it has
/// fewer as soon as a name repeats.
pub proof fn lemma_collect_len(pairs: Pairs)
    ensures
        collect(pairs).len() <= pairs.len(),
        !names_distinct(pairs) ==> collect(pairs).len() < pairs.len(),
    decreases pairs.len(),
{
    if pairs.len() > 0 {
        let init = pairs.drop_last();
        let (name, value) = pairs.last();
        lemma_collect_len(init);
        lemma_add_field_lookup(collect(init), name, value, name);
        lemma_collect_lookup(init, name);
        lemma_values_of(init, name);
        if !names_distinct(pairs) {
            let (i, j) = choose|i: int, j: int|
                0 <= i < j < pairs.len() && (#[trigger] pairs[i]).0 == (#[trigger] pairs[j]).0;
            if j == pairs.len() - 1 {
                assert(init[i].0 == name);
            } else {
                assert(init[i].0 == init[j].0);
            }
        }
    }
}

/// Adding one pair and then the rest is adding all of them.
pub proof fn lemma_collect_into_front(fields: Fields, first: (Seq<u8>, Seq<u8>), rest: Pairs)
    ensures
        collect_into(add_field(fields, first.0, first.1), rest) == collect_into(
            fields,
            seq![first] + rest,
        ),
    decreases rest.len(),
{
    let all = seq![first] + rest;
    if rest.len() == 0 {
        assert(all.drop_last() =~= Seq::<(Seq<u8>, Seq<u8>)>::empty());
        assert(all.last() == first);
        assert(collect_into(fields, all.drop_last()) == fields);
    } else {
        lemma_collect_into_front(fields, first, rest.drop_last());
        assert(all.drop_last() =~= seq![first] + rest.drop_last());
        assert(all.last() == rest.last());
    }
}

/// Adding some pairs and then others is adding all of them.
pub proof fn lemma_collect_into_append(fields: Fields, a: Pairs, b: Pairs)
    ensures
        collect_into(collect_into(fields, a), b) == collect_into(fields, a + b),
    decreases b.len(),
{
    if b.len() == 0 {
        assert(a + b =~= a);
    } else {
        lemma_collect_into_append(fields, a, b.drop_last());
        assert((a + b).drop_last() =~= a + b.drop_last());
        assert((a + b).last() == b.last());
    }
}

} // verus!
