//! What holds of every padding run and of every loaded class list.

use crate::class::{
    first_named, first_with_id, ids_match_positions, lemma_first_named, lemma_first_with_id,
    targets_resolve, with_fields, ClassView,
};
use crate::field::{
    largest_block, lemma_offset_at_monotone, offset_at, padding_field, padding_fields,
    total_size, ClassId, FieldKind, FieldView,
};
use crate::loading::{
    cursor_after, fill_all, fill_class, fill_prefix, gap_fields, keeps_names, loaded,
    loaded_field, loaded_target, needs_new_class, place_field, registered, tail_fields,
    with_target_class,
};
use crate::project::{stored, stored_field, DataClassView, DataFieldView};
use crate::sorting::{
    lemma_sorted_by_offset, lemma_sorted_contains, lemma_sorted_is_fixed, sorted_by_offset,
};
use vstd::prelude::*;

verus! {

/// The offsets in a concatenation: those of the first part stay, those of
/// the second part are moved by the size of the first.
pub proof fn lemma_offset_at_concat(a: Seq<FieldView>, b: Seq<FieldView>, k: nat)
    requires
        k <= a.len() + b.len(),
    ensures
        offset_at(a + b, k) == if k <= a.len() {
            offset_at(a, k)
        } else {
            total_size(a) + offset_at(b, (k - a.len()) as nat)
        },
    decreases k,
{
    if k > 0 {
        lemma_offset_at_concat(a, b, (k - 1) as nat);
        if k - 1 < a.len() {
            assert((a + b)[k - 1] == a[k - 1]);
        } else {
            assert((a + b)[k - 1] == b[k - 1 - a.len()]);
        }
    }
}

/// The size of a concatenation is the sum of the sizes.
pub proof fn lemma_total_size_concat(a: Seq<FieldView>, b: Seq<FieldView>)
    ensures
        total_size(a + b) == total_size(a) + total_size(b),
{
    lemma_offset_at_concat(a, b, a.len() + b.len());
}

/// The size of one more field is added to the size of the others.
pub proof fn lemma_total_size_push(a: Seq<FieldView>, f: FieldView)
    ensures
        total_size(a.push(f)) == total_size(a) + f.kind.spec_size(),
{
    let b = a.push(f);
    assert(b.drop_last() =~= a);
    lemma_offset_at_concat(a, seq![f], a.len());
    assert(a + seq![f] =~= b);
}

/// A nameless padding field that refers to nothing.
pub open spec fn is_filler(f: FieldView) -> bool {
    f.kind is Padding && f.name.len() == 0 && f.target is None
}

/// Padding covers exactly the gap it was made for, with fillers only.
pub proof fn lemma_padding_covers(gap: nat)
    ensures
        total_size(padding_fields(gap)) == gap,
        forall|j: int|
            0 <= j < padding_fields(gap).len() ==> is_filler(#[trigger] padding_fields(gap)[j]),
    decreases gap,
{
    if gap > 0 {
        let b = largest_block(gap);
        let rest = padding_fields((gap - b) as nat);
        let head = seq![padding_field(b)];
        lemma_padding_covers((gap - b) as nat);
        assert forall|j: int| 0 <= j < padding_fields(gap).len() implies is_filler(
            #[trigger] padding_fields(gap)[j],
        ) by {
            if j > 0 {
                assert(padding_fields(gap)[j] == rest[j - 1]);
            }
        }
        lemma_total_size_concat(head, rest);
        lemma_total_size_push(Seq::empty(), padding_field(b));
        assert(Seq::<FieldView>::empty().push(padding_field(b)) =~= head);
    }
}

/// The number of fillers for a gap: one block of 8 for every 8 bytes, and
/// at most one block each of 4, 2 and 1.
pub open spec fn padding_count(gap: nat) -> nat {
    gap / 8 + (gap % 8) / 4 + (gap % 4) / 2 + gap % 2
}

/// Padding uses as few blocks as a gap allows, and they never grow along the run.
pub proof fn lemma_padding_count(gap: nat)
    ensures
        padding_fields(gap).len() == padding_count(gap),
        forall|j: int|
            0 <= j < padding_fields(gap).len() ==> (#[trigger] padding_fields(
                gap,
            )[j]).kind.spec_size() <= largest_block(gap),
    decreases gap,
{
    if gap > 0 {
        let b = largest_block(gap);
        let rest = padding_fields((gap - b) as nat);
        lemma_padding_count((gap - b) as nat);
        assert forall|j: int| 0 <= j < padding_fields(gap).len() implies (#[trigger] padding_fields(
            gap,
        )[j]).kind.spec_size() <= b by {
            if j > 0 {
                assert(padding_fields(gap)[j] == rest[j - 1]);
            }
        }
    }
}

/// A size that a filler may have.
pub open spec fn is_block(b: nat) -> bool {
    b == 1 || b == 2 || b == 4 || b == 8
}

/// The bytes that a run of blocks covers.
pub open spec fn blocks_sum(blocks: Seq<nat>) -> nat
    decreases blocks.len(),
{
    if blocks.len() == 0 {
        0
    } else {
        blocks_sum(blocks.drop_last()) + blocks.last()
    }
}

/// Minimality: no run of blocks of 8, 4, 2 and 1 bytes covers a gap with
/// fewer blocks than the padding made for that gap.
pub proof fn lemma_padding_is_minimal(blocks: Seq<nat>)
    requires
        forall|j: int| 0 <= j < blocks.len() ==> is_block(#[trigger] blocks[j]),
    ensures
        padding_fields(blocks_sum(blocks)).len() <= blocks.len(),
    decreases blocks.len(),
{
    lemma_padding_count(blocks_sum(blocks));
    if blocks.len() > 0 {
        let init = blocks.drop_last();
        assert(forall|j: int| 0 <= j < init.len() ==> init[j] == blocks[j]);
        lemma_padding_is_minimal(init);
        lemma_padding_count(blocks_sum(init));
        assert(is_block(blocks.last()));
        assert(padding_count(blocks_sum(init) + blocks.last()) <= padding_count(blocks_sum(init))
            + 1);
    }
}

/// The stored fields do not overlap: none starts before the one before it ends.
pub open spec fn spaced(fields: Seq<DataFieldView>) -> bool {
    forall|m: int|
        0 <= m < fields.len() ==> cursor_after(fields, m as nat) <= (#[trigger] fields[m]).offset
}

/// In every stored class the fields, taken by ascending offset, do not overlap.
pub open spec fn well_spaced(data: Seq<DataClassView>) -> bool {
    forall|i: int| 0 <= i < data.len() ==> spaced(sorted_by_offset((#[trigger] data[i]).fields))
}

/// Every class has a size that is a multiple of 8.
pub open spec fn all_aligned(list: Seq<ClassView>) -> bool {
    forall|j: int| 0 <= j < list.len() ==> total_size((#[trigger] list[j]).fields) % 8 == 0
}

/// `after` is `before` with fields added to the class at `cid` only, and
/// with classes without fields behind it.
pub open spec fn grows_at(before: Seq<ClassView>, after: Seq<ClassView>, cid: int) -> bool {
    &&& before.len() <= after.len()
    &&& forall|j: int|
        0 <= j < before.len() ==> (#[trigger] after[j]).name == before[j].name && after[j].id
            == before[j].id
    &&& forall|j: int|
        0 <= j < before.len() && j != cid ==> (#[trigger] after[j]).fields == before[j].fields
    &&& forall|j: int| before.len() <= j < after.len() ==> (#[trigger] after[j]).fields.len() == 0
}

/// Placing fields changes the fields of one class only, and adds classes
/// without fields.
pub proof fn lemma_fill_prefix_grows(
    list: Seq<ClassView>,
    cid: int,
    fields: Seq<DataFieldView>,
    k: nat,
)
    requires
        0 <= cid < list.len(),
    ensures
        grows_at(list, fill_prefix(list, cid, fields, k), cid),
    decreases k,
{
    if k > 0 {
        lemma_fill_prefix_grows(list, cid, fields, (k - 1) as nat);
    }
}

/// Filling in a stored class changes the fields of the first class of its
/// name only, and adds classes without fields.
pub proof fn lemma_fill_class_grows(list: Seq<ClassView>, class: DataClassView)
    requires
        first_named(list, class.name) is Some,
    ensures
        grows_at(list, fill_class(list, class), first_named(list, class.name)->0),
        keeps_names(list, fill_class(list, class)),
{
    lemma_first_named(list, class.name);
    let cid = first_named(list, class.name)->0;
    let sorted = sorted_by_offset(class.fields);
    lemma_fill_prefix_grows(list, cid, sorted, sorted.len());
    let filled = fill_prefix(list, cid, sorted, sorted.len());
    let done = fill_class(list, class);
    assert forall|j: int| 0 <= j < list.len() implies (#[trigger] done[j]).name == list[j].name
        && done[j].id == list[j].id by {
        assert(filled[j].name == list[j].name);
    }
    assert forall|j: int| 0 <= j < list.len() && j != cid implies (#[trigger] done[j]).fields
        == list[j].fields by {
        assert(filled[j].fields == list[j].fields);
    }
    assert forall|j: int| list.len() <= j < done.len() implies (#[trigger] done[j]).fields.len()
        == 0 by {
        assert(filled[j].fields.len() == 0);
    }
}

/// The classes that were registered keep their places and names while the
/// stored classes are filled in, and no class is ever taken away.
pub proof fn lemma_fill_all_keeps(data: Seq<DataClassView>, k: nat)
    requires
        k <= data.len(),
    ensures
        keeps_names(registered(data), fill_all(registered(data), data, k)),
        k > 0 ==> first_named(
            fill_all(registered(data), data, (k - 1) as nat),
            data[k - 1].name,
        ) is Some,
        k > 0 ==> keeps_names(
            fill_all(registered(data), data, (k - 1) as nat),
            fill_all(registered(data), data, k),
        ),
    decreases k,
{
    let start = registered(data);
    if k > 0 {
        let prev = fill_all(start, data, (k - 1) as nat);
        lemma_fill_all_keeps(data, (k - 1) as nat);
        lemma_first_named(prev, data[k - 1].name);
        assert(prev[k - 1].name == start[k - 1].name);
        lemma_fill_class_grows(prev, data[k - 1]);
        let next = fill_class(prev, data[k - 1]);
        assert forall|j: int| 0 <= j < start.len() implies (#[trigger] next[j]).name
            == start[j].name by {
            assert(prev[j].name == start[j].name);
        }
    }
}

/// Placing fields that do not overlap grows the class by exactly the
/// bytes up to the end of the last of them.
pub proof fn lemma_fill_prefix_size(
    list: Seq<ClassView>,
    cid: int,
    fields: Seq<DataFieldView>,
    k: nat,
)
    requires
        0 <= cid < list.len(),
        k <= fields.len(),
        spaced(fields),
    ensures
        total_size(fill_prefix(list, cid, fields, k)[cid].fields) == total_size(list[cid].fields)
            + cursor_after(fields, k),
    decreases k,
{
    if k > 0 {
        lemma_fill_prefix_grows(list, cid, fields, (k - 1) as nat);
        let prev = fill_prefix(list, cid, fields, (k - 1) as nat);
        lemma_fill_prefix_size(list, cid, fields, (k - 1) as nat);
        let f = fields[k - 1];
        let cursor = cursor_after(fields, (k - 1) as nat);
        let gap = gap_fields(cursor, f.offset);
        let next = place_field(prev, cid, cursor, f);
        assert(cursor <= f.offset);
        if f.offset > cursor {
            lemma_padding_covers((f.offset - cursor) as nat);
        }
        lemma_total_size_push(gap, loaded_field(prev, f));
        lemma_total_size_concat(prev[cid].fields, gap.push(loaded_field(prev, f)));
        assert(next[cid].fields == prev[cid].fields + gap.push(loaded_field(prev, f)));
    }
}

/// Filling in a stored class whose fields do not overlap keeps every class
/// at a multiple of 8 bytes.
pub proof fn lemma_fill_class_aligned(list: Seq<ClassView>, class: DataClassView)
    requires
        all_aligned(list),
        first_named(list, class.name) is Some,
        spaced(sorted_by_offset(class.fields)),
    ensures
        all_aligned(fill_class(list, class)),
{
    lemma_first_named(list, class.name);
    let cid = first_named(list, class.name)->0;
    let sorted = sorted_by_offset(class.fields);
    let filled = fill_prefix(list, cid, sorted, sorted.len());
    let cursor = cursor_after(sorted, sorted.len());
    let tail = tail_fields(cursor);
    let done = fill_class(list, class);
    lemma_fill_prefix_grows(list, cid, sorted, sorted.len());
    lemma_fill_class_grows(list, class);
    lemma_fill_prefix_size(list, cid, sorted, sorted.len());
    lemma_total_size_concat(filled[cid].fields, tail);
    if cursor % 8 != 0 {
        lemma_padding_covers((8 - cursor % 8) as nat);
    }
    assert(done[cid].fields == filled[cid].fields + tail);
    assert forall|j: int| 0 <= j < done.len() implies total_size((#[trigger] done[j]).fields) % 8
        == 0 by {
        if j == cid {
        } else if j < list.len() {
            assert(done[j].fields == list[j].fields);
        } else {
            assert(done[j].fields.len() == 0);
        }
    }
}

/// After any number of stored classes were filled in, every class has a
/// size that is a multiple of 8.
pub proof fn lemma_fill_all_aligned(data: Seq<DataClassView>, k: nat)
    requires
        well_spaced(data),
        k <= data.len(),
    ensures
        all_aligned(fill_all(registered(data), data, k)),
    decreases k,
{
    if k > 0 {
        lemma_fill_all_aligned(data, (k - 1) as nat);
        lemma_fill_all_keeps(data, k);
        lemma_fill_class_aligned(fill_all(registered(data), data, (k - 1) as nat), data[k - 1]);
    }
}

/// Alignment: where the stored fields of each class do not overlap, every
/// class of the loaded list has a size that is a multiple of 8 bytes.
pub proof fn lemma_loaded_classes_are_aligned(data: Seq<DataClassView>)
    requires
        well_spaced(data),
    ensures
        forall|j: int|
            0 <= j < loaded(data).len() ==> total_size((#[trigger] loaded(data)[j]).fields) % 8
                == 0,
{
    lemma_fill_all_aligned(data, data.len());
}

/// Identifiers are positions, every target names a class of the list, and
/// the classes can be counted by the machine.
pub open spec fn sound(list: Seq<ClassView>) -> bool {
    &&& list.len() <= usize::MAX
    &&& ids_match_positions(list)
    &&& targets_resolve(list)
}

/// Appending fields whose targets are classes of the list keeps it sound.
pub proof fn lemma_with_fields_sound(list: Seq<ClassView>, cid: int, more: Seq<FieldView>)
    requires
        sound(list),
        0 <= cid < list.len(),
        forall|j: int|
            0 <= j < more.len() ==> match (#[trigger] more[j]).target {
                Some(t) => t.0 < list.len(),
                None => true,
            },
    ensures
        sound(with_fields(list, cid, more)),
{
    let next = with_fields(list, cid, more);
    assert forall|i: int, j: int| 0 <= i < next.len() && 0 <= j < next[i].fields.len() implies (
    match (#[trigger] next[i].fields[j]).target {
        Some(t) => t.0 < next.len(),
        None => true,
    }) by {
        if i != cid {
            assert(next[i].fields[j] == list[i].fields[j]);
        } else if j < list[cid].fields.len() {
            assert(next[i].fields[j] == list[i].fields[j]);
        } else {
            assert(next[i].fields[j] == more[j - list[cid].fields.len()]);
        }
    }
}

/// Placing a field keeps the list sound, as long as the machine can count
/// its classes.
pub proof fn lemma_place_field_sound(
    list: Seq<ClassView>,
    cid: int,
    cursor: nat,
    f: DataFieldView,
)
    requires
        sound(list),
        0 <= cid < list.len(),
        place_field(list, cid, cursor, f).len() <= usize::MAX,
    ensures
        sound(place_field(list, cid, cursor, f)),
{
    let grown = with_target_class(list, f);
    let gap = gap_fields(cursor, f.offset);
    let more = gap.push(loaded_field(list, f));
    assert(grown.len() == place_field(list, cid, cursor, f).len());
    if f.offset > cursor {
        lemma_padding_covers((f.offset - cursor) as nat);
    }
    if f.kind == FieldKind::Ptr && !needs_new_class(list, f) {
        lemma_first_named(list, f.metadata->0);
    }
    assert forall|i: int, j: int| 0 <= i < grown.len() && 0 <= j < grown[i].fields.len() implies (
    match (#[trigger] grown[i].fields[j]).target {
        Some(t) => t.0 < grown.len(),
        None => true,
    }) by {
        if i < list.len() {
            assert(grown[i].fields[j] == list[i].fields[j]);
        }
    }
    assert(sound(grown));
    assert forall|j: int| 0 <= j < more.len() implies match (#[trigger] more[j]).target {
        Some(t) => t.0 < grown.len(),
        None => true,
    } by {
        if j < gap.len() {
            assert(more[j] == gap[j]);
        }
    }
    lemma_with_fields_sound(grown, cid, more);
}

/// Placing any number of fields keeps the list sound.
pub proof fn lemma_fill_prefix_sound(
    list: Seq<ClassView>,
    cid: int,
    fields: Seq<DataFieldView>,
    k: nat,
)
    requires
        sound(list),
        0 <= cid < list.len(),
        fill_prefix(list, cid, fields, k).len() <= usize::MAX,
    ensures
        sound(fill_prefix(list, cid, fields, k)),
    decreases k,
{
    if k > 0 {
        let prev = fill_prefix(list, cid, fields, (k - 1) as nat);
        lemma_fill_prefix_grows(list, cid, fields, (k - 1) as nat);
        assert(prev.len() <= fill_prefix(list, cid, fields, k).len());
        lemma_fill_prefix_sound(list, cid, fields, (k - 1) as nat);
        lemma_place_field_sound(
            prev,
            cid,
            cursor_after(fields, (k - 1) as nat),
            fields[k - 1],
        );
    }
}

/// Filling in a stored class keeps the list sound.
pub proof fn lemma_fill_class_sound(list: Seq<ClassView>, class: DataClassView)
    requires
        sound(list),
        first_named(list, class.name) is Some,
        fill_class(list, class).len() <= usize::MAX,
    ensures
        sound(fill_class(list, class)),
{
    lemma_first_named(list, class.name);
    let cid = first_named(list, class.name)->0;
    let sorted = sorted_by_offset(class.fields);
    let filled = fill_prefix(list, cid, sorted, sorted.len());
    let cursor = cursor_after(sorted, sorted.len());
    lemma_fill_prefix_grows(list, cid, sorted, sorted.len());
    lemma_fill_prefix_sound(list, cid, sorted, sorted.len());
    if cursor % 8 != 0 {
        lemma_padding_covers((8 - cursor % 8) as nat);
    }
    lemma_with_fields_sound(filled, cid, tail_fields(cursor));
}

/// After any number of stored classes were filled in, the list is sound.
pub proof fn lemma_fill_all_sound(data: Seq<DataClassView>, k: nat)
    requires
        k <= data.len(),
        fill_all(registered(data), data, k).len() <= usize::MAX,
    ensures
        sound(fill_all(registered(data), data, k)),
    decreases k,
{
    lemma_fill_all_keeps(data, k);
    if k > 0 {
        lemma_fill_all_sound(data, (k - 1) as nat);
        lemma_fill_class_sound(fill_all(registered(data), data, (k - 1) as nat), data[k - 1]);
    }
}

/// No dangling references: in a loaded list that the machine can hold,
/// identifiers are positions and every target names a class of the list.
pub proof fn lemma_loaded_is_sound(data: Seq<DataClassView>)
    requires
        loaded(data).len() <= usize::MAX,
    ensures
        ids_match_positions(loaded(data)),
        targets_resolve(loaded(data)),
{
    lemma_fill_all_sound(data, data.len());
}

/// No two stored classes have the same name.
pub open spec fn distinct_names(data: Seq<DataClassView>) -> bool {
    forall|a: int, b: int| 0 <= a < b < data.len() ==> data[a].name != data[b].name
}

/// The field at position `p` has the name and kind of `f` and lies at the
/// offset that `f` was stored with, moved by `base`.
pub open spec fn placed_at(fields: Seq<FieldView>, p: int, base: nat, f: DataFieldView) -> bool {
    &&& 0 <= p < fields.len()
    &&& fields[p].name == f.name
    &&& fields[p].kind == f.kind
    &&& offset_at(fields, p as nat) == base + f.offset
}

/// Where names are distinct, a stored class is filled into the class at
/// its own position.
pub proof fn lemma_filled_at_own_position(
    data: Seq<DataClassView>,
    list: Seq<ClassView>,
    k: int,
)
    requires
        distinct_names(data),
        0 <= k < data.len(),
        keeps_names(registered(data), list),
    ensures
        first_named(list, data[k].name) == Some(k),
{
    lemma_first_named(list, data[k].name);
    let i = first_named(list, data[k].name)->0;
    assert(list[k].name == registered(data)[k].name);
    if i < k {
        assert(list[i].name == registered(data)[i].name);
    }
}

/// Fields that do not overlap are each placed at their own offset behind
/// what the class held before.
pub proof fn lemma_fill_prefix_places(
    list: Seq<ClassView>,
    cid: int,
    fields: Seq<DataFieldView>,
    k: nat,
    m: int,
)
    requires
        0 <= cid < list.len(),
        k <= fields.len(),
        spaced(fields),
        0 <= m < k,
    ensures
        exists|p: int|
            placed_at(
                fill_prefix(list, cid, fields, k)[cid].fields,
                p,
                total_size(list[cid].fields),
                fields[m],
            ),
    decreases k,
{
    let base = total_size(list[cid].fields);
    let prev = fill_prefix(list, cid, fields, (k - 1) as nat);
    let f = fields[k - 1];
    let cursor = cursor_after(fields, (k - 1) as nat);
    let gap = gap_fields(cursor, f.offset);
    let field = loaded_field(prev, f);
    let more = gap.push(field);
    let next = fill_prefix(list, cid, fields, k);
    lemma_fill_prefix_grows(list, cid, fields, (k - 1) as nat);
    lemma_fill_prefix_size(list, cid, fields, (k - 1) as nat);
    assert(next[cid].fields == prev[cid].fields + more);
    if m < k - 1 {
        lemma_fill_prefix_places(list, cid, fields, (k - 1) as nat, m);
        let p = choose|p: int| placed_at(prev[cid].fields, p, base, fields[m]);
        lemma_offset_at_concat(prev[cid].fields, more, p as nat);
        assert(next[cid].fields[p] == prev[cid].fields[p]);
        assert(placed_at(next[cid].fields, p, base, fields[m]));
    } else {
        let p = (prev[cid].fields.len() + gap.len()) as int;
        assert(cursor <= f.offset);
        if f.offset > cursor {
            lemma_padding_covers((f.offset - cursor) as nat);
        }
        assert(more =~= gap + seq![field]);
        lemma_offset_at_concat(gap, seq![field], gap.len());
        lemma_offset_at_concat(prev[cid].fields, more, p as nat);
        assert(next[cid].fields[p] == field);
        assert(placed_at(next[cid].fields, p, base, fields[m]));
    }
}

/// Behind what the class held before, fields that do not overlap leave
/// nothing but themselves, each at its own offset, and fillers.
pub proof fn lemma_fill_prefix_only_places(
    list: Seq<ClassView>,
    cid: int,
    fields: Seq<DataFieldView>,
    k: nat,
    p: int,
)
    requires
        0 <= cid < list.len(),
        k <= fields.len(),
        spaced(fields),
        list[cid].fields.len() <= p < fill_prefix(list, cid, fields, k)[cid].fields.len(),
    ensures
        is_filler(fill_prefix(list, cid, fields, k)[cid].fields[p]) || exists|m: int|
            0 <= m < k && placed_at(
                fill_prefix(list, cid, fields, k)[cid].fields,
                p,
                total_size(list[cid].fields),
                #[trigger] fields[m],
            ),
    decreases k,
{
    if k > 0 {
        let base = total_size(list[cid].fields);
        let prev = fill_prefix(list, cid, fields, (k - 1) as nat);
        let f = fields[k - 1];
        let cursor = cursor_after(fields, (k - 1) as nat);
        let gap = gap_fields(cursor, f.offset);
        let field = loaded_field(prev, f);
        let more = gap.push(field);
        let next = fill_prefix(list, cid, fields, k);
        lemma_fill_prefix_grows(list, cid, fields, (k - 1) as nat);
        lemma_fill_prefix_size(list, cid, fields, (k - 1) as nat);
        assert(next[cid].fields == prev[cid].fields + more);
        let before = prev[cid].fields.len();
        if p < before {
            lemma_fill_prefix_only_places(list, cid, fields, (k - 1) as nat, p);
            assert(next[cid].fields[p] == prev[cid].fields[p]);
            if !is_filler(prev[cid].fields[p]) {
                let m = choose|m: int|
                    0 <= m < k - 1 && placed_at(prev[cid].fields, p, base, #[trigger] fields[m]);
                lemma_offset_at_concat(prev[cid].fields, more, p as nat);
                assert(placed_at(next[cid].fields, p, base, fields[m]));
            }
        } else if p < before + gap.len() {
            assert(next[cid].fields[p] == gap[p - before]);
            if f.offset > cursor {
                lemma_padding_covers((f.offset - cursor) as nat);
            }
        } else {
            assert(cursor <= f.offset);
            if f.offset > cursor {
                lemma_padding_covers((f.offset - cursor) as nat);
            }
            assert(more =~= gap + seq![field]);
            lemma_offset_at_concat(gap, seq![field], gap.len());
            lemma_offset_at_concat(prev[cid].fields, more, p as nat);
            assert(next[cid].fields[p] == field);
            assert(placed_at(next[cid].fields, p, base, fields[k - 1]));
        }
    }
}

/// Where names are distinct, the fields of a class are those that were
/// given to it when its own stored class was filled in: before that it has
/// none, and later it is left alone.
pub proof fn lemma_fill_all_frame(data: Seq<DataClassView>, k: nat, i: int)
    requires
        distinct_names(data),
        k <= data.len(),
        0 <= i < data.len(),
    ensures
        i < fill_all(registered(data), data, k).len(),
        i >= k ==> fill_all(registered(data), data, k)[i].fields.len() == 0,
        i < k ==> fill_all(registered(data), data, k)[i].fields == fill_all(
            registered(data),
            data,
            (i + 1) as nat,
        )[i].fields,
    decreases k,
{
    let start = registered(data);
    lemma_fill_all_keeps(data, k);
    if k > 0 {
        let prev = fill_all(start, data, (k - 1) as nat);
        lemma_fill_all_frame(data, (k - 1) as nat, i);
        lemma_fill_all_keeps(data, (k - 1) as nat);
        lemma_filled_at_own_position(data, prev, k - 1);
        lemma_fill_class_grows(prev, data[k - 1]);
        let next = fill_class(prev, data[k - 1]);
        if i != k - 1 {
            assert(next[i].fields == prev[i].fields);
        }
    }
}

/// Contiguity: where names are distinct and stored fields do not overlap,
/// every stored field is found in the loaded class of its position, with
/// its name and kind, at the offset it was stored with.
pub proof fn lemma_loaded_fields_keep_offsets(data: Seq<DataClassView>, i: int, j: int)
    requires
        distinct_names(data),
        well_spaced(data),
        0 <= i < data.len(),
        0 <= j < data[i].fields.len(),
    ensures
        i < loaded(data).len(),
        loaded(data)[i].name == data[i].name,
        exists|p: int| placed_at(loaded(data)[i].fields, p, 0, data[i].fields[j]),
{
    broadcast use vstd::seq_lib::group_to_multiset_ensures;

    let start = registered(data);
    let prev = fill_all(start, data, i as nat);
    let sorted = sorted_by_offset(data[i].fields);
    lemma_sorted_by_offset(data[i].fields);
    let wanted = data[i].fields[j];
    assert(data[i].fields.to_multiset().count(wanted) > 0);
    assert(sorted.to_multiset().count(wanted) > 0);
    assert(sorted.contains(wanted));
    let m = choose|m: int| 0 <= m < sorted.len() && sorted[m] == wanted;
    lemma_fill_all_keeps(data, i as nat);
    lemma_fill_all_keeps(data, data.len());
    lemma_fill_all_frame(data, i as nat, i);
    lemma_fill_all_frame(data, data.len(), i);
    lemma_filled_at_own_position(data, prev, i);
    lemma_fill_prefix_grows(prev, i, sorted, sorted.len());
    lemma_fill_prefix_places(prev, i, sorted, sorted.len(), m);
    let filled = fill_prefix(prev, i, sorted, sorted.len());
    let tail = tail_fields(cursor_after(sorted, sorted.len()));
    let done = fill_class(prev, data[i]);
    let p = choose|p: int| placed_at(filled[i].fields, p, total_size(prev[i].fields), wanted);
    assert(done[i].fields == filled[i].fields + tail);
    lemma_offset_at_concat(filled[i].fields, tail, p as nat);
    assert(done[i].fields[p] == filled[i].fields[p]);
    assert(done == fill_all(start, data, (i + 1) as nat));
    assert(loaded(data)[i].fields == done[i].fields);
    assert(placed_at(loaded(data)[i].fields, p, 0, wanted));
    assert(loaded(data)[i].name == start[i].name);
}

/// What can be stored and found again as it was: identifiers are
/// positions, no two classes share a name, every pointer refers to a class
/// of the list, and no other field refers to one.
pub open spec fn restorable(classes: Seq<ClassView>) -> bool {
    &&& classes.len() <= usize::MAX
    &&& ids_match_positions(classes)
    &&& forall|a: int, b: int| 0 <= a < b < classes.len() ==> classes[a].name != classes[b].name
    &&& forall|i: int, j: int|
        0 <= i < classes.len() && 0 <= j < classes[i].fields.len() ==> {
            let f = #[trigger] classes[i].fields[j];
            match f.target {
                Some(t) => f.kind == FieldKind::Ptr && t.0 < classes.len(),
                None => f.kind != FieldKind::Ptr,
            }
        }
}

/// The class with the padding that rounds it up to a multiple of 8 bytes.
pub open spec fn rounded_up(c: ClassView) -> ClassView {
    ClassView { fields: c.fields + tail_fields(total_size(c.fields)), ..c }
}

/// The classes of which the first `k` are there in full and rounded up,
/// and the others without their fields.
pub open spec fn partly_restored(classes: Seq<ClassView>, k: int) -> Seq<ClassView> {
    Seq::new(
        classes.len(),
        |j: int|
            if j < k {
                rounded_up(classes[j])
            } else {
                ClassView { fields: Seq::empty(), ..classes[j] }
            },
    )
}

/// In a list that has the names of `classes`, each name is found at its own position.
pub proof fn lemma_name_found_at_position(
    classes: Seq<ClassView>,
    list: Seq<ClassView>,
    t: int,
)
    requires
        restorable(classes),
        list.len() == classes.len(),
        forall|j: int| 0 <= j < list.len() ==> (#[trigger] list[j]).name == classes[j].name,
        0 <= t < classes.len(),
    ensures
        first_named(list, classes[t].name) == Some(t),
{
    lemma_first_named(list, classes[t].name);
    let i = first_named(list, classes[t].name)->0;
    assert(list[t].name == classes[t].name);
    if i < t {
        assert(list[i].name == classes[i].name);
    }
}

/// Placing the stored fields of a class gives back its fields, one by one.
pub proof fn lemma_fill_prefix_restores(
    classes: Seq<ClassView>,
    list: Seq<ClassView>,
    i: int,
    k: nat,
)
    requires
        restorable(classes),
        0 <= i < classes.len(),
        k <= classes[i].fields.len(),
        list.len() == classes.len(),
        forall|j: int| 0 <= j < list.len() ==> (#[trigger] list[j]).name == classes[j].name,
        list[i].fields == Seq::<FieldView>::empty(),
    ensures
        fill_prefix(list, i, stored(classes)[i].fields, k) == list.update(
            i,
            ClassView { fields: classes[i].fields.take(k as int), ..list[i] },
        ),
    decreases k,
{
    let own = classes[i].fields;
    let fields = stored(classes)[i].fields;
    if k == 0 {
        assert(own.take(0) =~= Seq::<FieldView>::empty());
        assert(list.update(i, ClassView { fields: own.take(0), ..list[i] }) =~= list);
    } else {
        lemma_fill_prefix_restores(classes, list, i, (k - 1) as nat);
        let prev = fill_prefix(list, i, fields, (k - 1) as nat);
        let f = fields[k - 1];
        let orig = own[k - 1];
        let cursor = cursor_after(fields, (k - 1) as nat);
        assert(f == stored_field(classes, own, k - 1));
        assert(cursor == f.offset) by {
            if k > 1 {
                assert(fields[k - 2] == stored_field(classes, own, k - 2));
            }
        }
        assert(gap_fields(cursor, f.offset) =~= Seq::<FieldView>::empty());
        assert forall|j: int| 0 <= j < prev.len() implies (#[trigger] prev[j]).name
            == classes[j].name by {
            assert(list[j].name == classes[j].name);
        }
        if orig.kind == FieldKind::Ptr {
            let t = orig.target->0;
            lemma_first_with_id(classes, t);
            assert(classes[t.0 as int].id == t);
            let found = first_with_id(classes, t)->0;
            assert(classes[found].id == ClassId(found as usize));
            assert(found == t.0);
            lemma_name_found_at_position(classes, prev, t.0 as int);
            assert(f.metadata == Some(classes[t.0 as int].name));
            assert(!needs_new_class(prev, f));
            assert(loaded_target(prev, f) == Some(t));
        }
        assert(loaded_field(prev, f) == orig);
        assert(with_target_class(prev, f) == prev);
        let more = gap_fields(cursor, f.offset).push(orig);
        assert(own.take(k - 1) + more =~= own.take(k as int));
        assert(place_field(prev, i, cursor, f) =~= list.update(
            i,
            ClassView { fields: own.take(k as int), ..list[i] },
        ));
    }
}

/// Filling in the stored form of a class gives back the class, rounded up.
pub proof fn lemma_fill_class_restores(classes: Seq<ClassView>, i: int)
    requires
        restorable(classes),
        0 <= i < classes.len(),
    ensures
        fill_class(partly_restored(classes, i), stored(classes)[i])
            == partly_restored(classes, i + 1),
{
    let list = partly_restored(classes, i);
    let own = classes[i].fields;
    let class = stored(classes)[i];
    let fields = class.fields;
    assert forall|a: int, b: int| 0 <= a <= b < fields.len() implies fields[a].offset
        <= fields[b].offset by {
        lemma_offset_at_monotone(own, a as nat, b as nat);
    }
    lemma_sorted_is_fixed(fields);
    lemma_name_found_at_position(classes, list, i);
    lemma_fill_prefix_restores(classes, list, i, own.len());
    let cursor = cursor_after(fields, fields.len());
    assert(cursor == total_size(own)) by {
        if fields.len() > 0 {
            assert(fields[fields.len() - 1] == stored_field(
                classes,
                own,
                fields.len() - 1,
            ));
        }
    }
    assert(own.take(own.len() as int) =~= own);
    let filled = fill_prefix(list, i, fields, fields.len());
    assert(filled[i].fields == own);
    assert(fill_class(list, class) =~= partly_restored(classes, i + 1));
}

/// Filling in the stored forms of the first `k` classes gives them back.
pub proof fn lemma_fill_all_restores(classes: Seq<ClassView>, k: nat)
    requires
        restorable(classes),
        k <= classes.len(),
    ensures
        fill_all(
            registered(stored(classes)),
            stored(classes),
            k,
        ) == partly_restored(classes, k as int),
    decreases k,
{
    let data = stored(classes);
    if k == 0 {
        assert(registered(data) =~= partly_restored(classes, 0));
    } else {
        lemma_fill_all_restores(classes, (k - 1) as nat);
        lemma_fill_class_restores(classes, k - 1);
    }
}

/// Round trip: storing a restorable list and loading it again gives the
/// same classes under the same identifiers and names, with the same fields
/// in the same order, each class rounded up to a multiple of 8 bytes.
pub proof fn lemma_store_then_load(classes: Seq<ClassView>)
    requires
        restorable(classes),
    ensures
        loaded(stored(classes)).len() == classes.len(),
        forall|i: int|
            0 <= i < classes.len() ==> (#[trigger] loaded(stored(classes))[i])
                == rounded_up(classes[i]),
        all_aligned(classes) ==> loaded(stored(classes)) == classes,
{
    lemma_fill_all_restores(classes, classes.len());
    let again = loaded(stored(classes));
    if all_aligned(classes) {
        assert forall|i: int| 0 <= i < classes.len() implies again[i] == classes[i] by {
            assert(total_size(classes[i].fields) % 8 == 0);
            assert(classes[i].fields + tail_fields(total_size(classes[i].fields))
                =~= classes[i].fields);
        }
        assert(again =~= classes);
    }
}

/// No gaps: where names are distinct and stored fields do not overlap,
/// every field of a loaded class that was stored is either one of its
/// stored fields, at the offset it was stored with, or a filler.
pub proof fn lemma_loaded_fields_are_stored_or_fillers(data: Seq<DataClassView>, i: int, p: int)
    requires
        distinct_names(data),
        well_spaced(data),
        0 <= i < data.len(),
        0 <= p < loaded(data)[i].fields.len(),
    ensures
        is_filler(loaded(data)[i].fields[p]) || exists|j: int|
            0 <= j < data[i].fields.len() && placed_at(
                loaded(data)[i].fields,
                p,
                0,
                #[trigger] data[i].fields[j],
            ),
{
    let start = registered(data);
    let prev = fill_all(start, data, i as nat);
    let given = data[i].fields;
    let sorted = sorted_by_offset(given);
    lemma_sorted_by_offset(given);
    lemma_fill_all_keeps(data, i as nat);
    lemma_fill_all_frame(data, i as nat, i);
    lemma_fill_all_frame(data, data.len(), i);
    lemma_filled_at_own_position(data, prev, i);
    lemma_fill_prefix_grows(prev, i, sorted, sorted.len());
    let filled = fill_prefix(prev, i, sorted, sorted.len());
    let cursor = cursor_after(sorted, sorted.len());
    let tail = tail_fields(cursor);
    let done = fill_class(prev, data[i]);
    assert(done[i].fields == filled[i].fields + tail);
    assert(done == fill_all(start, data, (i + 1) as nat));
    assert(loaded(data)[i].fields == done[i].fields);
    if p < filled[i].fields.len() {
        lemma_fill_prefix_only_places(prev, i, sorted, sorted.len(), p);
        assert(done[i].fields[p] == filled[i].fields[p]);
        if !is_filler(filled[i].fields[p]) {
            let m = choose|m: int|
                0 <= m < sorted.len() && placed_at(
                    filled[i].fields,
                    p,
                    total_size(prev[i].fields),
                    #[trigger] sorted[m],
                );
            lemma_sorted_contains(given, m);
            let j = choose|j: int| 0 <= j < given.len() && given[j] == sorted[m];
            lemma_offset_at_concat(filled[i].fields, tail, p as nat);
            assert(placed_at(done[i].fields, p, 0, data[i].fields[j]));
        }
    } else {
        assert(done[i].fields[p] == tail[p - filled[i].fields.len()]);
        if cursor % 8 != 0 {
            lemma_padding_covers((8 - cursor % 8) as nat);
        }
    }
}

} // verus!
