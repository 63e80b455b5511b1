//! What holds of the pointers of every loaded class list: each refers to
//! the class that it was stored for.

use crate::class::{first_named, lemma_first_named, ClassView};
use crate::field::{ClassId, FieldKind};
use crate::loading::{
    cursor_after, fill_all, fill_class, fill_prefix, gap_fields, keeps_names, loaded,
    loaded_field, needs_new_class, place_field, registered,
};
use crate::naming::placeholder_name;
use crate::project::{DataClassView, DataFieldView};
use crate::sorting::{lemma_sorted_by_offset, lemma_sorted_contains, sorted_by_offset};
use crate::theorems::{
    distinct_names, lemma_fill_all_keeps, lemma_fill_class_grows, lemma_fill_prefix_grows,
    lemma_filled_at_own_position,
};
use vstd::prelude::*;

verus! {

/// `after` has the classes of `before` under their identifiers and names,
/// each with the fields it had and maybe more behind them, and maybe more
/// classes behind those of `before`.
pub open spec fn extends(before: Seq<ClassView>, after: Seq<ClassView>) -> bool {
    &&& before.len() <= after.len()
    &&& forall|j: int|
        0 <= j < before.len() ==> {
            &&& (#[trigger] after[j]).name == before[j].name
            &&& after[j].id == before[j].id
            &&& before[j].fields.len() <= after[j].fields.len()
        }
    &&& forall|j: int, p: int|
        0 <= j < before.len() && 0 <= p < before[j].fields.len() ==> (
        #[trigger] after[j].fields[p]) == before[j].fields[p]
}

/// The target is the one that the stored field `f` asks for: none for a
/// field that is no pointer; for a named pointer the first class of that
/// name; for an unnamed pointer a class behind the first `made_from`
/// classes, named after the offset of the pointer.
pub open spec fn resolved(
    made_from: nat,
    list: Seq<ClassView>,
    target: Option<ClassId>,
    f: DataFieldView,
) -> bool {
    if f.kind != FieldKind::Ptr {
        target is None
    } else {
        match f.metadata {
            Some(name) => first_named(list, name) is Some && target == Some(
                ClassId(first_named(list, name)->0 as usize),
            ),
            None => target is Some && made_from <= (target->0).0 < list.len() && list[(
            target->0).0 as int].name == placeholder_name(f.offset),
        }
    }
}

/// The class at `cid` holds at position `p` a field with the name and kind
/// of `f`, and with the target that `f` asks for.
pub open spec fn holds_resolved(
    made_from: nat,
    list: Seq<ClassView>,
    cid: int,
    p: int,
    f: DataFieldView,
) -> bool {
    &&& 0 <= p < list[cid].fields.len()
    &&& list[cid].fields[p].name == f.name
    &&& list[cid].fields[p].kind == f.kind
    &&& resolved(made_from, list, list[cid].fields[p].target, f)
}

/// Extending is transitive.
pub proof fn lemma_extends_twice(a: Seq<ClassView>, b: Seq<ClassView>, c: Seq<ClassView>)
    requires
        extends(a, b),
        extends(b, c),
    ensures
        extends(a, c),
{
    assert forall|j: int| 0 <= j < a.len() implies {
        &&& (#[trigger] c[j]).name == a[j].name
        &&& c[j].id == a[j].id
        &&& a[j].fields.len() <= c[j].fields.len()
    } by {
        assert(b[j].name == a[j].name);
    }
    assert forall|j: int, p: int| 0 <= j < a.len() && 0 <= p < a[j].fields.len() implies (
    #[trigger] c[j].fields[p]) == a[j].fields[p] by {
        assert(b[j].name == a[j].name);
        assert(b[j].fields[p] == a[j].fields[p]);
    }
}

/// A name that was found is found at the same place after the list was extended.
pub proof fn lemma_first_named_kept(before: Seq<ClassView>, after: Seq<ClassView>, name: Seq<char>)
    requires
        keeps_names(before, after),
        first_named(before, name) is Some,
    ensures
        first_named(after, name) == first_named(before, name),
{
    lemma_first_named(before, name);
    lemma_first_named(after, name);
    let t = first_named(before, name)->0;
    assert(after[t].name == before[t].name);
    let u = first_named(after, name)->0;
    if u < t {
        assert(after[u].name == before[u].name);
    }
}

/// A target that was resolved stays resolved after the list was extended.
pub proof fn lemma_resolved_kept(
    made_from: nat,
    before: Seq<ClassView>,
    after: Seq<ClassView>,
    target: Option<ClassId>,
    f: DataFieldView,
)
    requires
        extends(before, after),
        resolved(made_from, before, target, f),
    ensures
        resolved(made_from, after, target, f),
{
    if f.kind == FieldKind::Ptr {
        match f.metadata {
            Some(name) => {
                assert(keeps_names(before, after));
                lemma_first_named_kept(before, after, name);
            },
            None => {
                let t = (target->0).0 as int;
                assert(after[t].name == before[t].name);
            },
        }
    }
}

/// A field that a class holds resolved, it holds resolved after the list
/// was extended.
pub proof fn lemma_holds_resolved_kept(
    made_from: nat,
    before: Seq<ClassView>,
    after: Seq<ClassView>,
    cid: int,
    p: int,
    f: DataFieldView,
)
    requires
        0 <= cid < before.len(),
        extends(before, after),
        holds_resolved(made_from, before, cid, p, f),
    ensures
        holds_resolved(made_from, after, cid, p, f),
{
    assert(after[cid].name == before[cid].name);
    assert(after[cid].fields[p] == before[cid].fields[p]);
    lemma_resolved_kept(made_from, before, after, before[cid].fields[p].target, f);
}

/// Placing a field extends the list.
pub proof fn lemma_place_field_extends(
    list: Seq<ClassView>,
    cid: int,
    cursor: nat,
    f: DataFieldView,
)
    requires
        0 <= cid < list.len(),
    ensures
        extends(list, place_field(list, cid, cursor, f)),
{
    let next = place_field(list, cid, cursor, f);
    assert forall|j: int, p: int| 0 <= j < list.len() && 0 <= p < list[j].fields.len() implies (
    #[trigger] next[j].fields[p]) == list[j].fields[p] by {}
}

/// Placing any number of fields extends the list.
pub proof fn lemma_fill_prefix_extends(
    list: Seq<ClassView>,
    cid: int,
    fields: Seq<DataFieldView>,
    k: nat,
)
    requires
        0 <= cid < list.len(),
    ensures
        extends(list, fill_prefix(list, cid, fields, k)),
    decreases k,
{
    if k > 0 {
        let prev = fill_prefix(list, cid, fields, (k - 1) as nat);
        lemma_fill_prefix_extends(list, cid, fields, (k - 1) as nat);
        lemma_place_field_extends(prev, cid, cursor_after(fields, (k - 1) as nat), fields[k - 1]);
        lemma_extends_twice(list, prev, fill_prefix(list, cid, fields, k));
    }
}

/// Filling in a stored class extends the list.
pub proof fn lemma_fill_class_extends(list: Seq<ClassView>, class: DataClassView)
    requires
        first_named(list, class.name) is Some,
    ensures
        extends(list, fill_class(list, class)),
{
    lemma_first_named(list, class.name);
    let cid = first_named(list, class.name)->0;
    let sorted = sorted_by_offset(class.fields);
    let filled = fill_prefix(list, cid, sorted, sorted.len());
    let done = fill_class(list, class);
    lemma_fill_prefix_extends(list, cid, sorted, sorted.len());
    assert forall|j: int, p: int|
        0 <= j < filled.len() && 0 <= p < filled[j].fields.len() implies (
    #[trigger] done[j].fields[p]) == filled[j].fields[p] by {}
    assert(extends(filled, done));
    lemma_extends_twice(list, filled, done);
}

/// Filling in more stored classes extends the list.
pub proof fn lemma_fill_all_extends(data: Seq<DataClassView>, a: nat, b: nat)
    requires
        a <= b <= data.len(),
    ensures
        extends(fill_all(registered(data), data, a), fill_all(registered(data), data, b)),
    decreases b - a,
{
    let start = registered(data);
    if a < b {
        let prev = fill_all(start, data, (b - 1) as nat);
        lemma_fill_all_extends(data, a, (b - 1) as nat);
        lemma_fill_all_keeps(data, b);
        lemma_fill_class_extends(prev, data[b - 1]);
        lemma_extends_twice(fill_all(start, data, a), prev, fill_all(start, data, b));
    }
}

/// After a field was placed, the class holds it resolved.
pub proof fn lemma_place_field_resolves(
    made_from: nat,
    list: Seq<ClassView>,
    cid: int,
    cursor: nat,
    f: DataFieldView,
)
    requires
        0 <= cid < list.len(),
        made_from <= list.len(),
        place_field(list, cid, cursor, f).len() <= usize::MAX,
    ensures
        exists|p: int| holds_resolved(made_from, place_field(list, cid, cursor, f), cid, p, f),
{
    let next = place_field(list, cid, cursor, f);
    let gap = gap_fields(cursor, f.offset);
    let p = (list[cid].fields.len() + gap.len()) as int;
    assert(next[cid].fields[p] == loaded_field(list, f));
    lemma_place_field_extends(list, cid, cursor, f);
    if f.kind == FieldKind::Ptr {
        match f.metadata {
            Some(name) => {
                lemma_first_named(list, name);
                lemma_first_named(next, name);
                if needs_new_class(list, f) {
                    assert(next[list.len() as int].name == name);
                    let u = first_named(next, name)->0;
                    if u < list.len() {
                        assert(next[u].name == list[u].name);
                    }
                } else {
                    assert(keeps_names(list, next));
                    lemma_first_named_kept(list, next, name);
                }
            },
            None => {
                assert(next[list.len() as int].name == placeholder_name(f.offset));
            },
        }
    }
    assert(holds_resolved(made_from, next, cid, p, f));
}

/// After fields were placed, the class holds each of them resolved.
pub proof fn lemma_fill_prefix_resolves(
    made_from: nat,
    list: Seq<ClassView>,
    cid: int,
    fields: Seq<DataFieldView>,
    k: nat,
    m: int,
)
    requires
        0 <= cid < list.len(),
        made_from <= list.len(),
        k <= fields.len(),
        0 <= m < k,
        fill_prefix(list, cid, fields, k).len() <= usize::MAX,
    ensures
        exists|p: int|
            holds_resolved(made_from, fill_prefix(list, cid, fields, k), cid, p, fields[m]),
    decreases k,
{
    let prev = fill_prefix(list, cid, fields, (k - 1) as nat);
    let cursor = cursor_after(fields, (k - 1) as nat);
    let next = fill_prefix(list, cid, fields, k);
    lemma_fill_prefix_extends(list, cid, fields, (k - 1) as nat);
    lemma_place_field_extends(prev, cid, cursor, fields[k - 1]);
    if m < k - 1 {
        lemma_fill_prefix_resolves(made_from, list, cid, fields, (k - 1) as nat, m);
        let p = choose|p: int| holds_resolved(made_from, prev, cid, p, fields[m]);
        lemma_holds_resolved_kept(made_from, prev, next, cid, p, fields[m]);
    } else {
        lemma_place_field_resolves(made_from, prev, cid, cursor, fields[k - 1]);
    }
}

/// Pointer resolution: in a loaded list that the machine can hold, every
/// stored field is found in the first class that has the name of its
/// stored class, with its name and kind. A field that is no pointer refers
/// to nothing. A pointer stored with a name refers to the first class of
/// that name, be it its own class, one stored before or behind it, or one
/// made for it. A pointer stored without a name refers to a class made for
/// it, named after its offset.
pub proof fn lemma_loaded_pointers_resolve(data: Seq<DataClassView>, i: int, j: int)
    requires
        loaded(data).len() <= usize::MAX,
        0 <= i < data.len(),
        0 <= j < data[i].fields.len(),
    ensures
        first_named(loaded(data), data[i].name) is Some,
        exists|p: int|
            holds_resolved(
                data.len(),
                loaded(data),
                first_named(loaded(data), data[i].name)->0,
                p,
                data[i].fields[j],
            ),
{
    broadcast use vstd::seq_lib::group_to_multiset_ensures;

    let start = registered(data);
    let prev = fill_all(start, data, i as nat);
    let done = fill_all(start, data, (i + 1) as nat);
    let all = loaded(data);
    let sorted = sorted_by_offset(data[i].fields);
    let wanted = data[i].fields[j];
    lemma_sorted_by_offset(data[i].fields);
    assert(data[i].fields.to_multiset().count(wanted) > 0);
    assert(sorted.to_multiset().count(wanted) > 0);
    assert(sorted.contains(wanted));
    let m = choose|m: int| 0 <= m < sorted.len() && sorted[m] == wanted;
    lemma_fill_all_keeps(data, (i + 1) as nat);
    lemma_fill_all_extends(data, 0, i as nat);
    lemma_fill_all_extends(data, i as nat, (i + 1) as nat);
    lemma_fill_all_extends(data, (i + 1) as nat, data.len());
    lemma_first_named(prev, data[i].name);
    let cid = first_named(prev, data[i].name)->0;
    let filled = fill_prefix(prev, cid, sorted, sorted.len());
    lemma_fill_prefix_extends(prev, cid, sorted, sorted.len());
    assert(filled.len() == done.len());
    lemma_fill_prefix_resolves(data.len(), prev, cid, sorted, sorted.len(), m);
    let p = choose|p: int| holds_resolved(data.len(), filled, cid, p, wanted);
    assert forall|a: int, q: int|
        0 <= a < filled.len() && 0 <= q < filled[a].fields.len() implies (
    #[trigger] done[a].fields[q]) == filled[a].fields[q] by {}
    assert(extends(filled, done));
    lemma_extends_twice(filled, done, all);
    lemma_holds_resolved_kept(data.len(), filled, all, cid, p, wanted);
    assert(keeps_names(prev, done));
    assert(keeps_names(done, all));
    assert forall|a: int| 0 <= a < prev.len() implies (#[trigger] all[a]).name
        == prev[a].name by {
        assert(done[a].name == prev[a].name);
    }
    lemma_first_named_kept(prev, all, data[i].name);
}

/// The classes that were made for pointers have no fields.
pub proof fn lemma_made_classes_are_empty(data: Seq<DataClassView>, k: nat, t: int)
    requires
        k <= data.len(),
        data.len() <= t < fill_all(registered(data), data, k).len(),
    ensures
        fill_all(registered(data), data, k)[t].fields.len() == 0,
    decreases k,
{
    let start = registered(data);
    if k > 0 {
        let prev = fill_all(start, data, (k - 1) as nat);
        lemma_fill_all_keeps(data, k);
        lemma_fill_all_keeps(data, (k - 1) as nat);
        lemma_first_named(prev, data[k - 1].name);
        let cid = first_named(prev, data[k - 1].name)->0;
        assert(prev[k - 1].name == start[k - 1].name);
        assert(cid <= k - 1);
        lemma_fill_class_grows(prev, data[k - 1]);
        let next = fill_class(prev, data[k - 1]);
        if t < prev.len() {
            lemma_made_classes_are_empty(data, (k - 1) as nat, t);
            assert(next[t].fields == prev[t].fields);
        }
    }
}

/// Placeholder creation: every class of a loaded list behind those that
/// were stored was made for a pointer, and has no fields.
pub proof fn lemma_loaded_made_classes_are_empty(data: Seq<DataClassView>, t: int)
    requires
        data.len() <= t < loaded(data).len(),
    ensures
        loaded(data)[t].fields.len() == 0,
{
    lemma_made_classes_are_empty(data, data.len(), t);
}

/// The class at `cid` holds a pointer with the name of `f` that refers to
/// the class `target`.
pub open spec fn holds_pointer_to(
    list: Seq<ClassView>,
    cid: int,
    p: int,
    f: DataFieldView,
    target: int,
) -> bool {
    &&& 0 <= p < list[cid].fields.len()
    &&& list[cid].fields[p].name == f.name
    &&& list[cid].fields[p].kind == FieldKind::Ptr
    &&& list[cid].fields[p].target == Some(ClassId(target as usize))
}

/// Cycles and self-reference: where names are distinct, a pointer that
/// was stored with the name of a stored class refers to that very class in
/// the loaded list, be it its own class or another, stored before or
/// behind it.
pub proof fn lemma_pointer_to_stored_class(data: Seq<DataClassView>, i: int, j: int, k: int)
    requires
        loaded(data).len() <= usize::MAX,
        distinct_names(data),
        0 <= i < data.len(),
        0 <= j < data[i].fields.len(),
        0 <= k < data.len(),
        data[i].fields[j].kind == FieldKind::Ptr,
        data[i].fields[j].metadata == Some(data[k].name),
    ensures
        i < loaded(data).len(),
        k < loaded(data).len(),
        loaded(data)[i].name == data[i].name,
        loaded(data)[k].name == data[k].name,
        exists|p: int| holds_pointer_to(loaded(data), i, p, data[i].fields[j], k),
{
    let all = loaded(data);
    let f = data[i].fields[j];
    lemma_loaded_pointers_resolve(data, i, j);
    lemma_fill_all_keeps(data, data.len());
    lemma_filled_at_own_position(data, all, i);
    lemma_filled_at_own_position(data, all, k);
    let p = choose|p: int| holds_resolved(data.len(), all, i, p, f);
    assert(holds_pointer_to(all, i, p, f, k));
    assert(all[i].name == registered(data)[i].name);
    assert(all[k].name == registered(data)[k].name);
}

/// Forward references: a pointer that was stored with a name that no
/// stored class has refers to a class made under that name, behind the
/// stored classes and without fields.
pub proof fn lemma_pointer_to_absent_class(data: Seq<DataClassView>, i: int, j: int)
    requires
        loaded(data).len() <= usize::MAX,
        0 <= i < data.len(),
        0 <= j < data[i].fields.len(),
        data[i].fields[j].kind == FieldKind::Ptr,
        data[i].fields[j].metadata is Some,
        forall|k: int|
            0 <= k < data.len() ==> (#[trigger] data[k]).name != data[i].fields[j].metadata->0,
    ensures
        first_named(loaded(data), data[i].fields[j].metadata->0) is Some,
        ({
            let t = first_named(loaded(data), data[i].fields[j].metadata->0)->0;
            &&& data.len() <= t < loaded(data).len()
            &&& loaded(data)[t].name == data[i].fields[j].metadata->0
            &&& loaded(data)[t].fields.len() == 0
            &&& exists|p: int|
                holds_pointer_to(
                    loaded(data),
                    first_named(loaded(data), data[i].name)->0,
                    p,
                    data[i].fields[j],
                    t,
                )
        }),
{
    let all = loaded(data);
    let f = data[i].fields[j];
    let name = f.metadata->0;
    lemma_loaded_pointers_resolve(data, i, j);
    lemma_first_named(all, name);
    lemma_fill_all_keeps(data, data.len());
    let t = first_named(all, name)->0;
    if t < data.len() {
        assert(all[t].name == registered(data)[t].name);
        assert(data[t].name != name);
    }
    lemma_loaded_made_classes_are_empty(data, t);
    let cid = first_named(all, data[i].name)->0;
    let p = choose|p: int| holds_resolved(data.len(), all, cid, p, f);
    assert(holds_pointer_to(all, cid, p, f, t));
}

/// Unnamed pointers: a pointer that was stored without a name refers to a
/// class made for it, named after its offset, behind the stored classes
/// and without fields.
pub proof fn lemma_unnamed_pointer(data: Seq<DataClassView>, i: int, j: int)
    requires
        loaded(data).len() <= usize::MAX,
        0 <= i < data.len(),
        0 <= j < data[i].fields.len(),
        data[i].fields[j].kind == FieldKind::Ptr,
        data[i].fields[j].metadata is None,
    ensures
        exists|p: int, t: int|
            {
                &&& data.len() <= t < loaded(data).len()
                &&& loaded(data)[t].name == placeholder_name(data[i].fields[j].offset)
                &&& loaded(data)[t].fields.len() == 0
                &&& #[trigger] holds_pointer_to(
                    loaded(data),
                    first_named(loaded(data), data[i].name)->0,
                    p,
                    data[i].fields[j],
                    t,
                )
            },
{
    let all = loaded(data);
    let f = data[i].fields[j];
    lemma_loaded_pointers_resolve(data, i, j);
    let cid = first_named(all, data[i].name)->0;
    let p = choose|p: int| holds_resolved(data.len(), all, cid, p, f);
    let t = (all[cid].fields[p].target->0).0 as int;
    lemma_loaded_made_classes_are_empty(data, t);
    assert(holds_pointer_to(all, cid, p, f, t));
}

/// If `f` is a pointer, it was stored with the name of a stored class.
pub open spec fn names_stored_class(data: Seq<DataClassView>, f: DataFieldView) -> bool {
    f.kind == FieldKind::Ptr ==> f.metadata is Some && exists|k: int|
        0 <= k < data.len() && (#[trigger] data[k]).name == f.metadata->0
}

/// Every pointer was stored with the name of a stored class.
pub open spec fn all_name_stored_classes(data: Seq<DataClassView>) -> bool {
    forall|i: int, j: int|
        0 <= i < data.len() && 0 <= j < data[i].fields.len() ==> names_stored_class(
            data,
            #[trigger] data[i].fields[j],
        )
}

/// Placing pointers that name stored classes makes no class.
pub proof fn lemma_fill_prefix_makes_none(
    data: Seq<DataClassView>,
    list: Seq<ClassView>,
    cid: int,
    fields: Seq<DataFieldView>,
    k: nat,
)
    requires
        0 <= cid < list.len(),
        keeps_names(registered(data), list),
        k <= fields.len(),
        forall|m: int| 0 <= m < fields.len() ==> names_stored_class(data, #[trigger] fields[m]),
    ensures
        fill_prefix(list, cid, fields, k).len() == list.len(),
    decreases k,
{
    if k > 0 {
        let prev = fill_prefix(list, cid, fields, (k - 1) as nat);
        let f = fields[k - 1];
        lemma_fill_prefix_makes_none(data, list, cid, fields, (k - 1) as nat);
        lemma_fill_prefix_grows(list, cid, fields, (k - 1) as nat);
        assert(names_stored_class(data, f));
        if f.kind == FieldKind::Ptr {
            let name = f.metadata->0;
            let at = choose|at: int| 0 <= at < data.len() && (#[trigger] data[at]).name == name;
            assert(list[at].name == registered(data)[at].name);
            assert(prev[at].name == list[at].name);
            lemma_first_named(prev, name);
            assert(!needs_new_class(prev, f));
        }
    }
}

/// Filling in stored classes whose pointers all name stored classes makes no class.
pub proof fn lemma_fill_all_makes_none(data: Seq<DataClassView>, k: nat)
    requires
        all_name_stored_classes(data),
        k <= data.len(),
    ensures
        fill_all(registered(data), data, k).len() == data.len(),
    decreases k,
{
    if k > 0 {
        let prev = fill_all(registered(data), data, (k - 1) as nat);
        lemma_fill_all_makes_none(data, (k - 1) as nat);
        lemma_fill_all_keeps(data, k);
        lemma_fill_all_keeps(data, (k - 1) as nat);
        lemma_first_named(prev, data[k - 1].name);
        let cid = first_named(prev, data[k - 1].name)->0;
        let sorted = sorted_by_offset(data[k - 1].fields);
        assert forall|m: int| 0 <= m < sorted.len() implies names_stored_class(
            data,
            #[trigger] sorted[m],
        ) by {
            let given = data[k - 1].fields;
            lemma_sorted_contains(given, m);
            let j = choose|j: int| 0 <= j < given.len() && given[j] == sorted[m];
            assert(names_stored_class(data, data[k - 1].fields[j]));
        }
        lemma_fill_prefix_makes_none(data, prev, cid, sorted, sorted.len());
    }
}

/// No duplicates: where every pointer was stored with the name of a stored
/// class (its own, or one stored before or behind it), the loaded list has
/// exactly the stored classes, and none was made.
pub proof fn lemma_loaded_makes_no_class(data: Seq<DataClassView>)
    requires
        all_name_stored_classes(data),
    ensures
        loaded(data).len() == data.len(),
{
    lemma_fill_all_makes_none(data, data.len());
}

} // verus!
