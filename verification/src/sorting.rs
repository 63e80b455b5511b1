//! Stable ordering of stored fields by their offsets.

use crate::project::{data_field_views, DataField, DataFieldView};
use vstd::prelude::*;

verus! {

/// `s`, ordered by offset, with `f` put behind every field that does not
/// lie after it.
pub open spec fn insert_by_offset(s: Seq<DataFieldView>, f: DataFieldView) -> Seq<DataFieldView>
    decreases s.len(),
{
    if s.len() == 0 {
        seq![f]
    } else if s.last().offset <= f.offset {
        s.push(f)
    } else {
        insert_by_offset(s.drop_last(), f).push(s.last())
    }
}

/// The fields in ascending order of offset; fields of equal offset keep
/// their order.
pub open spec fn sorted_by_offset(s: Seq<DataFieldView>) -> Seq<DataFieldView>
    decreases s.len(),
{
    if s.len() == 0 {
        s
    } else {
        insert_by_offset(sorted_by_offset(s.drop_last()), s.last())
    }
}

/// Offsets never decrease along `s`.
pub open spec fn ascending(s: Seq<DataFieldView>) -> bool {
    forall|i: int, j: int| 0 <= i <= j < s.len() ==> s[i].offset <= s[j].offset
}

/// Inserting at the place behind which every field lies after `f`, and
/// before which the nearest does not, is `insert_by_offset`.
pub proof fn lemma_insert_position(s: Seq<DataFieldView>, f: DataFieldView, p: int)
    requires
        0 <= p <= s.len(),
        forall|j: int| p <= j < s.len() ==> s[j].offset > f.offset,
        p == 0 || s[p - 1].offset <= f.offset,
    ensures
        insert_by_offset(s, f) == s.insert(p, f),
    decreases s.len(),
{
    if s.len() == 0 {
        assert(s.insert(p, f) =~= seq![f]);
    } else if p == s.len() {
        assert(s.insert(p, f) =~= s.push(f));
    } else {
        let init = s.drop_last();
        assert(forall|j: int| 0 <= j < init.len() ==> init[j] == s[j]);
        lemma_insert_position(init, f, p);
        assert(s.insert(p, f) =~= init.insert(p, f).push(s.last()));
    }
}

/// Inserting keeps every field, adds the new one, and keeps the order.
pub proof fn lemma_insert_by_offset(s: Seq<DataFieldView>, f: DataFieldView)
    ensures
        insert_by_offset(s, f).len() == s.len() + 1,
        insert_by_offset(s, f).to_multiset() == s.to_multiset().insert(f),
        ascending(s) ==> ascending(insert_by_offset(s, f)),
    decreases s.len(),
{
    broadcast use vstd::seq_lib::group_to_multiset_ensures;

    let r = insert_by_offset(s, f);
    if s.len() == 0 {
        assert(r =~= s.push(f));
    } else if s.last().offset <= f.offset {
    } else {
        let init = s.drop_last();
        assert(s =~= init.push(s.last()));
        lemma_insert_by_offset(init, f);
        let ri = insert_by_offset(init, f);
        assert(r.to_multiset() =~= s.to_multiset().insert(f));
        if ascending(s) {
            assert(forall|j: int| 0 <= j < init.len() ==> init[j] == s[j]);
            assert(ascending(init));
            assert forall|j: int| 0 <= j < ri.len() implies ri[j].offset <= s.last().offset by {
                assert(ri.to_multiset().count(ri[j]) > 0);
                if ri[j] != f {
                    assert(init.to_multiset().count(ri[j]) > 0);
                    assert(init.contains(ri[j]));
                    let w = choose|w: int| 0 <= w < init.len() && init[w] == ri[j];
                    assert(s[w].offset <= s[s.len() - 1].offset);
                }
            }
        }
    }
}

/// Sorting keeps the fields and their number, and orders them.
pub proof fn lemma_sorted_by_offset(s: Seq<DataFieldView>)
    ensures
        sorted_by_offset(s).len() == s.len(),
        sorted_by_offset(s).to_multiset() == s.to_multiset(),
        ascending(sorted_by_offset(s)),
    decreases s.len(),
{
    broadcast use vstd::seq_lib::group_to_multiset_ensures;

    if s.len() > 0 {
        let init = s.drop_last();
        assert(s =~= init.push(s.last()));
        lemma_sorted_by_offset(init);
        lemma_insert_by_offset(sorted_by_offset(init), s.last());
    }
}

/// What is already in order is left as it is.
pub proof fn lemma_sorted_is_fixed(s: Seq<DataFieldView>)
    requires
        ascending(s),
    ensures
        sorted_by_offset(s) == s,
    decreases s.len(),
{
    if s.len() > 0 {
        let init = s.drop_last();
        assert(forall|j: int| 0 <= j < init.len() ==> init[j] == s[j]);
        lemma_sorted_is_fixed(init);
        if init.len() > 0 {
            assert(init.last().offset <= s.last().offset);
        }
        assert(init.push(s.last()) =~= s);
    }
}

/// Every field of the sorted sequence is a field of the given one.
pub proof fn lemma_sorted_contains(s: Seq<DataFieldView>, k: int)
    requires
        0 <= k < sorted_by_offset(s).len(),
    ensures
        s.contains(sorted_by_offset(s)[k]),
{
    broadcast use vstd::seq_lib::group_to_multiset_ensures;

    lemma_sorted_by_offset(s);
    let r = sorted_by_offset(s);
    assert(r.to_multiset().count(r[k]) > 0);
    assert(s.to_multiset().count(r[k]) > 0);
}

/// Puts `f` into the ordered `fields`, behind the fields of equal offset.
fn insert_field(fields: &mut Vec<DataField>, f: DataField)
    ensures
        data_field_views(final(fields)@) == insert_by_offset(data_field_views(old(fields)@), f@),
{
    let ghost before = data_field_views(fields@);
    let mut p: usize = fields.len();
    while p > 0 && fields[p - 1].offset > f.offset
        invariant
            p <= fields.len(),
            fields@ == old(fields)@,
            before == data_field_views(fields@),
            forall|j: int| p <= j < before.len() ==> before[j].offset > f@.offset,
        decreases p,
    {
        assert(before[p - 1].offset > f@.offset);
        p -= 1;
    }
    proof {
        if p > 0 {
            assert(before[p - 1].offset <= f@.offset);
        }
        lemma_insert_position(before, f@, p as int);
    }
    fields.insert(p, f);
    assert(data_field_views(fields@) =~= before.insert(p as int, f@));
}

/// A copy of the fields in ascending order of offset; fields of equal
/// offset keep their order.
pub fn sort_fields(fields: &Vec<DataField>) -> (sorted: Vec<DataField>)
    ensures
        data_field_views(sorted@) == sorted_by_offset(data_field_views(fields@)),
{
    let ghost all = data_field_views(fields@);
    let mut sorted: Vec<DataField> = Vec::new();
    let mut i: usize = 0;
    assert(all.take(0) =~= Seq::<DataFieldView>::empty());
    assert(data_field_views(sorted@) =~= Seq::<DataFieldView>::empty());
    while i < fields.len()
        invariant
            i <= fields.len(),
            all == data_field_views(fields@),
            data_field_views(sorted@) == sorted_by_offset(all.take(i as int)),
        decreases fields.len() - i,
    {
        assert(all.take(i as int + 1).drop_last() =~= all.take(i as int));
        assert(all.take(i as int + 1).last() == fields@[i as int]@);
        insert_field(&mut sorted, fields[i].clone());
        i += 1;
    }
    assert(all.take(i as int) =~= all);
    sorted
}

} // verus!
