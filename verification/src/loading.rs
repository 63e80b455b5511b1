//! Rebuilding a class list from its stored form.

use crate::class::{
    first_named, lemma_first_named, targets_resolve, with_fields, ClassList, ClassView,
};
use crate::field::{
    allocate_padding, field_views, padding_fields, ClassId, Field, FieldKind, FieldView,
};
use crate::naming::{placeholder, placeholder_name};
use crate::project::{
    data_field_views, DataClass, DataClassView, DataField, DataFieldView, ProjectData,
};
use crate::sorting::{
    lemma_sorted_by_offset, lemma_sorted_contains, sort_fields, sorted_by_offset,
};
use crate::theorems::{
    all_aligned, lemma_loaded_classes_are_aligned, lemma_loaded_is_sound, well_spaced,
};
use vstd::prelude::*;

verus! {

/// One class without fields for each stored class, in order.
pub open spec fn registered(data: Seq<DataClassView>) -> Seq<ClassView> {
    Seq::new(
        data.len(),
        |i: int| ClassView { id: ClassId(i as usize), name: data[i].name, fields: Seq::empty() },
    )
}

/// The fillers between the end of the previous field and `offset`.
pub open spec fn gap_fields(cursor: nat, offset: nat) -> Seq<FieldView> {
    if offset > cursor {
        padding_fields((offset - cursor) as nat)
    } else {
        Seq::empty()
    }
}

/// The fillers that round a class of `cursor` bytes up to a multiple of 8.
pub open spec fn tail_fields(cursor: nat) -> Seq<FieldView> {
    if cursor % 8 != 0 {
        padding_fields((8 - cursor % 8) as nat)
    } else {
        Seq::empty()
    }
}

/// Whether the pointer `f` refers to no class of `list`, so that one is made for it.
pub open spec fn needs_new_class(list: Seq<ClassView>, f: DataFieldView) -> bool {
    f.kind == FieldKind::Ptr && (f.metadata is None || first_named(list, f.metadata->0) is None)
}

/// The name of the class made for the pointer `f`.
pub open spec fn new_class_name(f: DataFieldView) -> Seq<char> {
    match f.metadata {
        Some(m) => m,
        None => placeholder_name(f.offset),
    }
}

/// The list with the class made for `f` behind it, where one is made.
pub open spec fn with_target_class(list: Seq<ClassView>, f: DataFieldView) -> Seq<ClassView> {
    if needs_new_class(list, f) {
        list.push(
            ClassView {
                id: ClassId(list.len() as usize),
                name: new_class_name(f),
                fields: Seq::empty(),
            },
        )
    } else {
        list
    }
}

/// The class that the loaded form of `f` refers to.
pub open spec fn loaded_target(list: Seq<ClassView>, f: DataFieldView) -> Option<ClassId> {
    if f.kind != FieldKind::Ptr {
        None
    } else if needs_new_class(list, f) {
        Some(ClassId(list.len() as usize))
    } else {
        Some(ClassId(first_named(list, f.metadata->0)->0 as usize))
    }
}

/// The field that `f` is loaded as.
pub open spec fn loaded_field(list: Seq<ClassView>, f: DataFieldView) -> FieldView {
    FieldView { name: f.name, kind: f.kind, target: loaded_target(list, f) }
}

/// The list after `f` was placed in the class at `cid`, whose fields so far
/// were taken to end at `cursor`.
pub open spec fn place_field(
    list: Seq<ClassView>,
    cid: int,
    cursor: nat,
    f: DataFieldView,
) -> Seq<ClassView> {
    with_fields(
        with_target_class(list, f),
        cid,
        gap_fields(cursor, f.offset).push(loaded_field(list, f)),
    )
}

/// Where the first `k` of `fields` are taken to end.
pub open spec fn cursor_after(fields: Seq<DataFieldView>, k: nat) -> nat {
    if k == 0 {
        0
    } else {
        fields[k - 1].offset + fields[k - 1].kind.spec_size()
    }
}

/// The list after the first `k` of `fields` were placed in the class at `cid`.
pub open spec fn fill_prefix(
    list: Seq<ClassView>,
    cid: int,
    fields: Seq<DataFieldView>,
    k: nat,
) -> Seq<ClassView>
    decreases k,
{
    if k == 0 {
        list
    } else {
        place_field(
            fill_prefix(list, cid, fields, (k - 1) as nat),
            cid,
            cursor_after(fields, (k - 1) as nat),
            fields[k - 1],
        )
    }
}

/// The list after a stored class was filled into the first class of its
/// name: its fields by ascending offset, gaps filled, rounded up to 8 bytes.
pub open spec fn fill_class(list: Seq<ClassView>, class: DataClassView) -> Seq<ClassView> {
    let cid = first_named(list, class.name)->0;
    let sorted = sorted_by_offset(class.fields);
    with_fields(
        fill_prefix(list, cid, sorted, sorted.len()),
        cid,
        tail_fields(cursor_after(sorted, sorted.len())),
    )
}

/// The list after the first `k` stored classes were filled in.
pub open spec fn fill_all(list: Seq<ClassView>, data: Seq<DataClassView>, k: nat) -> Seq<
    ClassView,
>
    decreases k,
{
    if k == 0 {
        list
    } else {
        fill_class(fill_all(list, data, (k - 1) as nat), data[k - 1])
    }
}

/// The class list that a stored project describes.
pub open spec fn loaded(data: Seq<DataClassView>) -> Seq<ClassView> {
    fill_all(registered(data), data, data.len())
}

/// The end of the field fits the machine's address space.
pub open spec fn field_fits(f: DataFieldView) -> bool {
    f.offset + f.kind.spec_size() <= usize::MAX
}

/// `after` has the classes of `before` under their names and positions, and
/// maybe more behind them.
pub open spec fn keeps_names(before: Seq<ClassView>, after: Seq<ClassView>) -> bool {
    &&& before.len() <= after.len()
    &&& forall|k: int| 0 <= k < before.len() ==> (#[trigger] after[k]).name == before[k].name
}

/// All of the fields fit the machine's address space.
pub open spec fn all_fit(fields: Seq<DataFieldView>) -> bool {
    forall|j: int| 0 <= j < fields.len() ==> field_fits(#[trigger] fields[j])
}

/// Places one stored field in the class `cid`.
fn place(list: &mut ClassList, cid: ClassId, cursor: usize, f: &DataField)
    requires
        old(list).wf(),
        cid.0 < old(list)@.len(),
    ensures
        final(list).wf(),
        final(list)@ == place_field(old(list)@, cid.0 as int, cursor as nat, f@),
        keeps_names(old(list)@, final(list)@),
{
    let ghost before = list@;
    let target: Option<ClassId> = match f.kind {
        FieldKind::Ptr => {
            let known: Option<ClassId> = match &f.metadata {
                Some(m) => match list.by_name(m.as_str()) {
                    Some(c) => {
                        proof {
                            lemma_first_named(before, m@);
                        }
                        Some(c.id())
                    },
                    None => None,
                },
                None => None,
            };
            match known {
                Some(id) => Some(id),
                None => {
                    let name = match &f.metadata {
                        Some(m) => m.clone(),
                        None => placeholder(f.offset),
                    };
                    Some(list.add_class(name))
                },
            }
        },
        _ => None,
    };
    assert(list@ == with_target_class(before, f@));
    assert(target == loaded_target(before, f@));
    let mut more: Vec<Field> = if f.offset > cursor {
        allocate_padding(f.offset - cursor)
    } else {
        Vec::new()
    };
    assert(field_views(more@) =~= gap_fields(cursor as nat, f@.offset));
    let ghost gap = field_views(more@);
    more.push(Field::new(f.name.clone(), f.kind, target));
    assert(field_views(more@) =~= gap.push(loaded_field(before, f@)));
    list.extend_fields(cid, more);
}

/// Fills one stored class into the first class of its name.
fn fill(list: &mut ClassList, class: &DataClass)
    requires
        old(list).wf(),
        first_named(old(list)@, class@.name) is Some,
        all_fit(class@.fields),
    ensures
        final(list).wf(),
        final(list)@ == fill_class(old(list)@, class@),
        keeps_names(old(list)@, final(list)@),
{
    let ghost before = list@;
    let sorted = sort_fields(&class.fields);
    let ghost fields = data_field_views(sorted@);
    proof {
        list.lemma_len_bounded();
        lemma_first_named(before, class@.name);
        lemma_sorted_by_offset(class@.fields);
    }
    let cid = match list.by_name(class.name.as_str()) {
        Some(c) => c.id(),
        // Not reached: a class of this name is in the list.
        None => ClassId(0),
    };
    assert(cid.0 as int == first_named(before, class@.name)->0);
    let mut cursor: usize = 0;
    let mut k: usize = 0;
    while k < sorted.len()
        invariant
            k <= sorted.len(),
            before == old(list)@,
            cid.0 as int == first_named(before, class@.name)->0,
            list.wf(),
            fields == data_field_views(sorted@),
            fields == sorted_by_offset(class@.fields),
            all_fit(class@.fields),
            cid.0 < before.len(),
            keeps_names(before, list@),
            cursor == cursor_after(fields, k as nat),
            list@ == fill_prefix(before, cid.0 as int, fields, k as nat),
        decreases sorted.len() - k,
    {
        let f = &sorted[k];
        proof {
            lemma_sorted_contains(class@.fields, k as int);
            assert(fields[k as int] == f@);
            assert(field_fits(f@));
        }
        place(list, cid, cursor, f);
        cursor = f.offset + f.kind.size();
        k += 1;
    }
    assert(fields.len() == sorted@.len());
    assert(cid.0 < list@.len());
    if cursor % 8 != 0 {
        list.extend_fields(cid, allocate_padding(8 - cursor % 8));
    } else {
        let ghost own = list@[cid.0 as int].fields;
        assert(own + Seq::<FieldView>::empty() =~= own);
        assert(list@ =~= with_fields(list@, cid.0 as int, Seq::empty()));
    }
}

/// Opens what a parser made of a project text. Where the text was
/// malformed, so that there is nothing to open, or where a stored field
/// ends beyond the machine's address space, the list stays as it is;
/// else it is replaced by the loaded project.
pub fn open_project(list: &mut ClassList, parsed: Option<ProjectData>) -> (opened: bool)
    requires
        old(list).wf(),
    ensures
        final(list).wf(),
        opened == (parsed is Some && ProjectData::loadable(parsed->0@)),
        opened ==> final(list)@ == loaded(parsed->0@) && targets_resolve(final(list)@),
        !opened ==> final(list)@ == old(list)@,
{
    match parsed {
        Some(data) => {
            if data.is_loadable() {
                *list = data.load();
                true
            } else {
                false
            }
        },
        None => false,
    }
}

impl ProjectData {
    /// Every stored field ends within the machine's address space.
    pub open spec fn loadable(data: Seq<DataClassView>) -> bool {
        forall|i: int| 0 <= i < data.len() ==> all_fit(#[trigger] data[i].fields)
    }

    /// Whether `load` can be called on this project.
    pub fn is_loadable(&self) -> (b: bool)
        ensures
            b == Self::loadable(self@),
    {
        let mut i: usize = 0;
        while i < self.classes.len()
            invariant
                i <= self.classes.len(),
                forall|a: int| 0 <= a < i ==> all_fit(#[trigger] self@[a].fields),
            decreases self.classes.len() - i,
        {
            let fields = &self.classes[i].fields;
            let mut j: usize = 0;
            while j < fields.len()
                invariant
                    j <= fields.len(),
                    i < self.classes.len(),
                    fields == &self.classes@[i as int].fields,
                    forall|b: int| 0 <= b < j ==> field_fits(#[trigger] self@[i as int].fields[b]),
                decreases fields.len() - j,
            {
                let size = fields[j].kind.size();
                if fields[j].offset > usize::MAX - size {
                    assert(!field_fits(self@[i as int].fields[j as int]));
                    return false;
                }
                assert(field_fits(self@[i as int].fields[j as int]));
                j += 1;
            }
            i += 1;
        }
        true
    }

    /// Rebuilds the class list: first a class for every stored class, so
    /// that pointers find their targets whatever the order; then the fields
    /// of each.
    pub fn load(self) -> (list: ClassList)
        requires
            Self::loadable(self@),
        ensures
            list.wf(),
            list@ == loaded(self@),
            targets_resolve(list@),
            well_spaced(self@) ==> all_aligned(list@),
    {
        let ghost data = self@;
        let mut list = ClassList::new();
        let mut i: usize = 0;
        while i < self.classes.len()
            invariant
                i <= self.classes.len(),
                data == self@,
                list.wf(),
                list@ == registered(data).take(i as int),
            decreases self.classes.len() - i,
        {
            list.add_empty_class(self.classes[i].name.clone());
            assert(list@ =~= registered(data).take(i as int + 1));
            i += 1;
        }
        assert(list@ =~= registered(data));
        let mut i: usize = 0;
        while i < self.classes.len()
            invariant
                i <= self.classes.len(),
                data == self@,
                Self::loadable(data),
                list.wf(),
                keeps_names(registered(data), list@),
                list@ == fill_all(registered(data), data, i as nat),
            decreases self.classes.len() - i,
        {
            proof {
                lemma_first_named(list@, data[i as int].name);
                assert(list@[i as int].name == registered(data)[i as int].name);
                assert(self.classes@[i as int]@ == data[i as int]);
            }
            fill(&mut list, &self.classes[i]);
            i += 1;
        }
        proof {
            list.lemma_len_bounded();
            lemma_loaded_is_sound(data);
            if well_spaced(data) {
                lemma_loaded_classes_are_aligned(data);
            }
        }
        list
    }
}

} // verus!
