//! Classes and the arena that owns them.

use crate::field::{
    allocate_padding, field_views, kept_target, lemma_offset_at_monotone, offset_at,
    padding_fields, total_size, ClassId, Field, FieldKind, FieldView,
};
use vstd::prelude::*;

verus! {

/// A named, ordered collection of fields. The order of the fields is their
/// byte order: the offset of a field is the sum of the sizes before it.
#[derive(Debug)]
pub struct Class {
    id: ClassId,
    name: String,
    fields: Vec<Field>,
}

/// What a class is, as plain values.
pub struct ClassView {
    pub id: ClassId,
    pub name: Seq<char>,
    pub fields: Seq<FieldView>,
}

impl View for Class {
    type V = ClassView;

    closed spec fn view(&self) -> ClassView {
        ClassView { id: self.id, name: self.name@, fields: field_views(self.fields@) }
    }
}

/// The views of a sequence of classes, in order.
pub open spec fn class_views(classes: Seq<Class>) -> Seq<ClassView> {
    Seq::new(classes.len(), |i: int| classes[i]@)
}

/// Index of the first class called `name`, if there is one.
pub open spec fn first_named(list: Seq<ClassView>, name: Seq<char>) -> Option<int>
    decreases list.len(),
{
    if list.len() == 0 {
        None
    } else {
        match first_named(list.drop_last(), name) {
            Some(i) => Some(i),
            None => if list.last().name == name {
                Some(list.len() - 1)
            } else {
                None
            },
        }
    }
}

/// Index of the first class whose identifier is `id`, if there is one.
pub open spec fn first_with_id(list: Seq<ClassView>, id: ClassId) -> Option<int>
    decreases list.len(),
{
    if list.len() == 0 {
        None
    } else {
        match first_with_id(list.drop_last(), id) {
            Some(i) => Some(i),
            None => if list.last().id == id {
                Some(list.len() - 1)
            } else {
                None
            },
        }
    }
}

/// `first_named` finds a class exactly when one has the name, and then the
/// one with the least index.
pub proof fn lemma_first_named(list: Seq<ClassView>, name: Seq<char>)
    ensures
        match first_named(list, name) {
            Some(i) => 0 <= i < list.len() && list[i].name == name && forall|j: int|
                0 <= j < i ==> list[j].name != name,
            None => forall|j: int| 0 <= j < list.len() ==> list[j].name != name,
        },
    decreases list.len(),
{
    if list.len() > 0 {
        let init = list.drop_last();
        lemma_first_named(init, name);
        assert(forall|j: int| 0 <= j < init.len() ==> init[j] == list[j]);
    }
}

/// `first_with_id` finds a class exactly when one has the identifier, and
/// then the one with the least index.
pub proof fn lemma_first_with_id(list: Seq<ClassView>, id: ClassId)
    ensures
        match first_with_id(list, id) {
            Some(i) => 0 <= i < list.len() && list[i].id == id && forall|j: int|
                0 <= j < i ==> list[j].id != id,
            None => forall|j: int| 0 <= j < list.len() ==> list[j].id != id,
        },
    decreases list.len(),
{
    if list.len() > 0 {
        let init = list.drop_last();
        lemma_first_with_id(init, id);
        assert(forall|j: int| 0 <= j < init.len() ==> init[j] == list[j]);
    }
}

/// Every class sits at the index that its identifier names.
pub open spec fn ids_match_positions(list: Seq<ClassView>) -> bool {
    forall|i: int| 0 <= i < list.len() ==> (#[trigger] list[i]).id == ClassId(i as usize)
}

/// In a list that the machine can hold and whose identifiers are
/// positions, no two classes share an identifier.
pub proof fn lemma_ids_are_unique(list: Seq<ClassView>, a: int, b: int)
    requires
        ids_match_positions(list),
        list.len() <= usize::MAX,
        0 <= a < list.len(),
        0 <= b < list.len(),
        a != b,
    ensures
        list[a].id != list[b].id,
{
}

/// Every target of every field names a class of the list.
pub open spec fn targets_resolve(list: Seq<ClassView>) -> bool {
    forall|i: int, j: int|
        0 <= i < list.len() && 0 <= j < list[i].fields.len() ==> match (
        #[trigger] list[i].fields[j]).target {
            Some(t) => t.0 < list.len(),
            None => true,
        }
}

/// The list with `more` appended to the fields of the class at `cid`.
pub open spec fn with_fields(list: Seq<ClassView>, cid: int, more: Seq<FieldView>) -> Seq<
    ClassView,
> {
    list.update(cid, ClassView { fields: list[cid].fields + more, ..list[cid] })
}

impl Class {
    pub fn id(&self) -> (id: ClassId)
        ensures
            id == self@.id,
    {
        self.id
    }

    pub fn name(&self) -> (s: &str)
        ensures
            s@ == self@.name,
    {
        self.name.as_str()
    }

    pub fn fields(&self) -> (fields: &[Field])
        ensures
            field_views(fields@) == self@.fields,
    {
        self.fields.as_slice()
    }

    pub fn field_count(&self) -> (n: usize)
        ensures
            n == self@.fields.len(),
    {
        self.fields.len()
    }

    /// The offset of the field at `index`, or the size of the class where
    /// `index` is the number of its fields. Nothing where `index` is
    /// beyond that, or where the offset does not fit the machine's
    /// address space.
    pub fn offset_of(&self, index: usize) -> (offset: Option<usize>)
        ensures
            match offset {
                Some(n) => index <= self@.fields.len() && n == offset_at(
                    self@.fields,
                    index as nat,
                ),
                None => index > self@.fields.len() || offset_at(self@.fields, index as nat)
                    > usize::MAX,
            },
    {
        if index > self.fields.len() {
            return None;
        }
        let mut sum: usize = 0;
        let mut i: usize = 0;
        while i < index
            invariant
                i <= index <= self.fields.len(),
                sum == offset_at(self@.fields, i as nat),
            decreases index - i,
        {
            let size = self.fields[i].size();
            assert(self@.fields[i as int] == self.fields@[i as int]@);
            if sum > usize::MAX - size {
                proof {
                    lemma_offset_at_monotone(self@.fields, (i + 1) as nat, index as nat);
                }
                return None;
            }
            sum = sum + size;
            i += 1;
        }
        Some(sum)
    }

    /// The size of the class in bytes, where it fits the machine's address space.
    pub fn size(&self) -> (size: Option<usize>)
        ensures
            match size {
                Some(n) => n == total_size(self@.fields),
                None => total_size(self@.fields) > usize::MAX,
            },
    {
        self.offset_of(self.fields.len())
    }

    /// Gives the class another name.
    pub fn rename(&mut self, name: String)
        ensures
            final(self)@ == (ClassView { name: name@, ..old(self)@ }),
    {
        self.name = name;
    }

    /// Appends a field.
    pub fn push_field(&mut self, field: Field)
        ensures
            final(self)@ == (ClassView {
                fields: old(self)@.fields.push(field@),
                ..old(self)@
            }),
    {
        self.fields.push(field);
        assert(field_views(self.fields@) =~= old(self)@.fields.push(field@));
    }

    /// Appends `count` bytes of padding.
    pub fn add_bytes(&mut self, count: usize)
        ensures
            final(self)@ == (ClassView {
                fields: old(self)@.fields + padding_fields(count as nat),
                ..old(self)@
            }),
    {
        if count > 0 {
            let mut more = allocate_padding(count);
            let ghost added = field_views(more@);
            self.fields.append(&mut more);
            assert(field_views(self.fields@) =~= old(self)@.fields + added);
        } else {
            assert(old(self)@.fields + padding_fields(0) =~= old(self)@.fields);
        }
    }

    /// Puts `count` bytes of padding before the field at `at`, or behind
    /// the last field where `at` is the number of fields. A position beyond
    /// that leaves the class unchanged.
    pub fn insert_bytes(&mut self, at: usize, count: usize) -> (done: bool)
        ensures
            done == (at <= old(self)@.fields.len()),
            done ==> final(self)@ == (ClassView {
                fields: old(self)@.fields.take(at as int) + padding_fields(count as nat)
                    + old(self)@.fields.skip(at as int),
                ..old(self)@
            }),
            !done ==> final(self)@ == old(self)@,
    {
        if at > self.fields.len() {
            return false;
        }
        let mut tail = self.fields.split_off(at);
        let ghost head = field_views(self.fields@);
        let ghost rest = field_views(tail@);
        assert(head =~= old(self)@.fields.take(at as int));
        assert(rest =~= old(self)@.fields.skip(at as int));
        if count > 0 {
            let mut more = allocate_padding(count);
            let ghost added = field_views(more@);
            self.fields.append(&mut more);
            assert(field_views(self.fields@) =~= head + added);
        } else {
            assert(head + padding_fields(0) =~= head);
        }
        let ghost padded = field_views(self.fields@);
        self.fields.append(&mut tail);
        assert(field_views(self.fields@) =~= padded + rest);
        true
    }

    /// Takes out `count` fields from the one at `at` on, or all from there
    /// on where fewer are left. A position beyond the fields leaves the
    /// class unchanged.
    pub fn remove_fields(&mut self, at: usize, count: usize) -> (removed: usize)
        ensures
            at <= old(self)@.fields.len() ==> removed == if count <= old(self)@.fields.len()
                - at {
                count as int
            } else {
                old(self)@.fields.len() - at
            },
            at <= old(self)@.fields.len() ==> final(self)@ == (ClassView {
                fields: old(self)@.fields.take(at as int) + old(self)@.fields.skip(
                    at + removed,
                ),
                ..old(self)@
            }),
            at > old(self)@.fields.len() ==> removed == 0 && final(self)@ == old(self)@,
    {
        if at > self.fields.len() {
            return 0;
        }
        let left = self.fields.len() - at;
        let removed = if count <= left {
            count
        } else {
            left
        };
        let mut tail = self.fields.split_off(at);
        let mut rest = tail.split_off(removed);
        let ghost head = field_views(self.fields@);
        let ghost kept = field_views(rest@);
        assert(head =~= old(self)@.fields.take(at as int));
        assert(kept =~= old(self)@.fields.skip(at + removed));
        self.fields.append(&mut rest);
        assert(field_views(self.fields@) =~= head + kept);
        removed
    }

    /// Replaces the kind of the field at `at` in place. A pointer kind
    /// keeps the target, any other kind drops it. A position beyond the
    /// fields leaves the class unchanged.
    pub fn change_kind(&mut self, at: usize, kind: FieldKind) -> (done: bool)
        ensures
            done == (at < old(self)@.fields.len()),
            done ==> final(self)@ == (ClassView {
                fields: old(self)@.fields.update(
                    at as int,
                    FieldView {
                        name: old(self)@.fields[at as int].name,
                        kind,
                        target: kept_target(kind, old(self)@.fields[at as int].target),
                    },
                ),
                ..old(self)@
            }),
            !done ==> final(self)@ == old(self)@,
    {
        if at < self.fields.len() {
            assert(old(self)@.fields[at as int] == self.fields@[at as int]@);
            self.fields[at].set_kind(kind);
            assert(field_views(self.fields@) =~= old(self)@.fields.update(
                at as int,
                self.fields@[at as int]@,
            ));
            true
        } else {
            false
        }
    }
}

/// The arena of all classes of a session. Identifiers are positions in it.
#[derive(Debug)]
pub struct ClassList {
    classes: Vec<Class>,
}

impl View for ClassList {
    type V = Seq<ClassView>;

    closed spec fn view(&self) -> Seq<ClassView> {
        class_views(self.classes@)
    }
}

impl Default for ClassList {
    fn default() -> (list: ClassList)
        ensures
            list@ == Seq::<ClassView>::empty(),
            list.wf(),
    {
        ClassList::new()
    }
}

impl ClassList {
    /// The validity of the arena: identifiers are positions.
    pub open spec fn wf(&self) -> bool {
        ids_match_positions(self@)
    }

    /// The arena never holds more classes than the machine can count.
    pub proof fn lemma_len_bounded(&self)
        ensures
            self@.len() <= usize::MAX,
    {
        assert(self.classes.len() == self.classes@.len());
    }

    pub fn new() -> (list: ClassList)
        ensures
            list@ == Seq::<ClassView>::empty(),
            list.wf(),
    {
        let list = ClassList { classes: Vec::new() };
        assert(list@ =~= Seq::<ClassView>::empty());
        list
    }

    pub fn len(&self) -> (n: usize)
        ensures
            n == self@.len(),
    {
        self.classes.len()
    }

    /// All classes, in the order of their identifiers.
    pub fn classes(&self) -> (classes: &[Class])
        ensures
            class_views(classes@) == self@,
    {
        self.classes.as_slice()
    }

    /// Creates a class without fields and returns its fresh identifier.
    /// A name that is already in use is not refused.
    pub fn add_class(&mut self, name: String) -> (id: ClassId)
        requires
            old(self).wf(),
        ensures
            final(self).wf(),
            id == ClassId(old(self)@.len() as usize),
            final(self)@ == old(self)@.push(
                ClassView { id, name: name@, fields: Seq::empty() },
            ),
    {
        let id = ClassId(self.classes.len());
        let class = Class { id, name, fields: Vec::new() };
        assert(class@.fields =~= Seq::<FieldView>::empty());
        self.classes.push(class);
        assert(self@ =~= old(self)@.push(class@));
        id
    }

    /// The same as `add_class`.
    pub fn add_empty_class(&mut self, name: String) -> (id: ClassId)
        requires
            old(self).wf(),
        ensures
            final(self).wf(),
            id == ClassId(old(self)@.len() as usize),
            final(self)@ == old(self)@.push(
                ClassView { id, name: name@, fields: Seq::empty() },
            ),
    {
        self.add_class(name)
    }

    /// The first class with the given name.
    pub fn by_name(&self, name: &str) -> (found: Option<&Class>)
        ensures
            match found {
                Some(c) => first_named(self@, name@) is Some && c@ == self@[first_named(
                    self@,
                    name@,
                )->0],
                None => first_named(self@, name@) is None,
            },
    {
        let wanted = name.to_owned();
        let mut i: usize = 0;
        while i < self.classes.len()
            invariant
                i <= self.classes.len(),
                wanted@ == name@,
                forall|j: int| 0 <= j < i ==> self@[j].name != name@,
            decreases self.classes.len() - i,
        {
            if self.classes[i].name == wanted {
                proof {
                    lemma_first_named(self@, name@);
                    assert(self@[i as int].name == name@);
                }
                return Some(&self.classes[i]);
            }
            assert(self@[i as int].name != name@);
            i += 1;
        }
        proof {
            lemma_first_named(self@, name@);
        }
        None
    }

    /// The class with the given identifier.
    pub fn by_id(&self, id: ClassId) -> (found: Option<&Class>)
        requires
            self.wf(),
        ensures
            match found {
                Some(c) => id.0 < self@.len() && c@ == self@[id.0 as int],
                None => id.0 >= self@.len(),
            },
    {
        if id.0 < self.classes.len() {
            Some(&self.classes[id.0])
        } else {
            None
        }
    }

    /// The class with the given identifier, to be edited in place.
    pub fn by_id_mut(&mut self, id: ClassId) -> (found: Option<&mut Class>)
        requires
            old(self).wf(),
        ensures
            match found {
                Some(c) => {
                    &&& id.0 < old(self)@.len()
                    &&& c@ == old(self)@[id.0 as int]
                    &&& final(self)@ == old(self)@.update(id.0 as int, final(c)@)
                },
                None => id.0 >= old(self)@.len() && final(self)@ == old(self)@,
            },
    {
        if id.0 < self.classes.len() {
            Some(&mut self.classes[id.0])
        } else {
            None
        }
    }

    /// Gives the class with the given identifier another name, under which
    /// `by_name` then finds a class. An unknown identifier leaves the list
    /// unchanged.
    pub fn rename_class(&mut self, id: ClassId, name: String) -> (done: bool)
        requires
            old(self).wf(),
        ensures
            final(self).wf(),
            done == (id.0 < old(self)@.len()),
            done ==> final(self)@ == old(self)@.update(
                id.0 as int,
                ClassView { name: name@, ..old(self)@[id.0 as int] },
            ),
            done ==> first_named(final(self)@, name@) is Some,
            !done ==> final(self)@ == old(self)@,
    {
        if id.0 < self.classes.len() {
            self.classes[id.0].rename(name);
            proof {
                assert(self@ =~= old(self)@.update(
                    id.0 as int,
                    ClassView { name: name@, ..old(self)@[id.0 as int] },
                ));
                lemma_first_named(self@, name@);
                assert(self@[id.0 as int].name == name@);
            }
            true
        } else {
            false
        }
    }

    /// Appends a field to the class with the given identifier. An unknown
    /// identifier leaves the list unchanged.
    pub fn push_field(&mut self, id: ClassId, field: Field) -> (done: bool)
        requires
            old(self).wf(),
        ensures
            final(self).wf(),
            done == (id.0 < old(self)@.len()),
            done ==> final(self)@ == with_fields(old(self)@, id.0 as int, seq![field@]),
            !done ==> final(self)@ == old(self)@,
    {
        if id.0 < self.classes.len() {
            self.classes[id.0].fields.push(field);
            assert(self.classes@[id.0 as int]@.fields =~= old(self)@[id.0 as int].fields
                + seq![field@]);
            assert(self@ =~= with_fields(old(self)@, id.0 as int, seq![field@]));
            true
        } else {
            false
        }
    }

    /// Appends fields to the class with the given identifier. An unknown
    /// identifier leaves the list unchanged.
    pub fn extend_fields(&mut self, id: ClassId, more: Vec<Field>) -> (done: bool)
        requires
            old(self).wf(),
        ensures
            final(self).wf(),
            done == (id.0 < old(self)@.len()),
            done ==> final(self)@ == with_fields(old(self)@, id.0 as int, field_views(more@)),
            !done ==> final(self)@ == old(self)@,
    {
        if id.0 < self.classes.len() {
            let mut more = more;
            let ghost added = field_views(more@);
            self.classes[id.0].fields.append(&mut more);
            assert(self.classes@[id.0 as int]@.fields =~= old(self)@[id.0 as int].fields + added);
            assert(self@ =~= with_fields(old(self)@, id.0 as int, added));
            true
        } else {
            false
        }
    }
}

} // verus!
