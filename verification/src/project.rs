//! The flat, name-addressed form of a class list: fields carry their
//! offsets, pointers carry the name of the class they refer to.

use crate::class::{class_views, first_with_id, lemma_first_with_id, Class, ClassView};
use crate::field::{
    field_views, lemma_offset_at_monotone, offset_at, total_size, ClassId, Field, FieldKind,
    FieldView,
};
use crate::loading::{all_fit, field_fits};
use vstd::prelude::*;

verus! {

/// One stored field.
#[derive(Debug)]
pub struct DataField {
    pub name: String,
    pub offset: usize,
    pub kind: FieldKind,
    /// On a pointer: the name of the class it refers to.
    pub metadata: Option<String>,
}

pub struct DataFieldView {
    pub name: Seq<char>,
    pub offset: nat,
    pub kind: FieldKind,
    pub metadata: Option<Seq<char>>,
}

/// One stored class.
#[derive(Debug)]
pub struct DataClass {
    pub name: String,
    pub fields: Vec<DataField>,
}

pub struct DataClassView {
    pub name: Seq<char>,
    pub fields: Seq<DataFieldView>,
}

/// A stored project: its classes in order.
#[derive(Debug)]
pub struct ProjectData {
    pub classes: Vec<DataClass>,
}

pub open spec fn text_view(text: Option<String>) -> Option<Seq<char>> {
    match text {
        Some(s) => Some(s@),
        None => None,
    }
}

impl View for DataField {
    type V = DataFieldView;

    open spec fn view(&self) -> DataFieldView {
        DataFieldView {
            name: self.name@,
            offset: self.offset as nat,
            kind: self.kind,
            metadata: text_view(self.metadata),
        }
    }
}

pub open spec fn data_field_views(fields: Seq<DataField>) -> Seq<DataFieldView> {
    Seq::new(fields.len(), |i: int| fields[i]@)
}

impl View for DataClass {
    type V = DataClassView;

    open spec fn view(&self) -> DataClassView {
        DataClassView { name: self.name@, fields: data_field_views(self.fields@) }
    }
}

pub open spec fn data_class_views(classes: Seq<DataClass>) -> Seq<DataClassView> {
    Seq::new(classes.len(), |i: int| classes[i]@)
}

impl View for ProjectData {
    type V = Seq<DataClassView>;

    open spec fn view(&self) -> Seq<DataClassView> {
        data_class_views(self.classes@)
    }
}

impl Clone for DataField {
    fn clone(&self) -> (f: DataField)
        ensures
            f@ == self@,
    {
        let metadata = match &self.metadata {
            Some(s) => Some(s.clone()),
            None => None,
        };
        DataField { name: self.name.clone(), offset: self.offset, kind: self.kind, metadata }
    }
}

impl Clone for DataClass {
    fn clone(&self) -> (c: DataClass)
        ensures
            c@ == self@,
    {
        let mut fields: Vec<DataField> = Vec::new();
        let mut i: usize = 0;
        while i < self.fields.len()
            invariant
                i <= self.fields.len(),
                fields@.len() == i,
                forall|j: int| 0 <= j < i ==> (#[trigger] fields@[j])@ == self.fields@[j]@,
            decreases self.fields.len() - i,
        {
            fields.push(self.fields[i].clone());
            i += 1;
        }
        assert(data_field_views(fields@) =~= data_field_views(self.fields@));
        DataClass { name: self.name.clone(), fields }
    }
}

impl Clone for ProjectData {
    fn clone(&self) -> (p: ProjectData)
        ensures
            p@ == self@,
    {
        let mut classes: Vec<DataClass> = Vec::new();
        let mut i: usize = 0;
        while i < self.classes.len()
            invariant
                i <= self.classes.len(),
                classes@.len() == i,
                forall|j: int| 0 <= j < i ==> (#[trigger] classes@[j])@ == self.classes@[j]@,
            decreases self.classes.len() - i,
        {
            classes.push(self.classes[i].clone());
            i += 1;
        }
        assert(data_class_views(classes@) =~= data_class_views(self.classes@));
        ProjectData { classes }
    }
}

/// What a pointer field is stored with: the name of the first class that
/// has the identifier it refers to. Other kinds, raw pointers and pointers
/// to no class of `classes` are stored with nothing.
pub open spec fn stored_metadata(classes: Seq<ClassView>, f: FieldView) -> Option<Seq<char>> {
    if f.kind == FieldKind::Ptr && f.target is Some {
        match first_with_id(classes, f.target->0) {
            Some(i) => Some(classes[i].name),
            None => None,
        }
    } else {
        None
    }
}

/// The stored form of field `j` of `fields`.
pub open spec fn stored_field(
    classes: Seq<ClassView>,
    fields: Seq<FieldView>,
    j: int,
) -> DataFieldView {
    DataFieldView {
        name: fields[j].name,
        offset: offset_at(fields, j as nat),
        kind: fields[j].kind,
        metadata: stored_metadata(classes, fields[j]),
    }
}

/// The stored form of the first `k` fields of a class.
pub open spec fn stored_class_prefix(
    classes: Seq<ClassView>,
    c: ClassView,
    k: nat,
) -> DataClassView {
    DataClassView {
        name: c.name,
        fields: Seq::new(k, |j: int| stored_field(classes, c.fields, j)),
    }
}

/// The stored form of a class.
pub open spec fn stored_class(classes: Seq<ClassView>, c: ClassView) -> DataClassView {
    stored_class_prefix(classes, c, c.fields.len())
}

/// The stored form of a sequence of classes.
pub open spec fn stored(classes: Seq<ClassView>) -> Seq<DataClassView> {
    Seq::new(classes.len(), |i: int| stored_class(classes, classes[i]))
}

/// What was stored can be loaded: the stored fields of classes whose sizes
/// fit the machine's address space end within it.
pub proof fn lemma_stored_is_loadable(classes: Seq<ClassView>)
    requires
        ProjectData::storable(classes),
    ensures
        ProjectData::loadable(stored(classes)),
{
    let data = stored(classes);
    assert forall|i: int| 0 <= i < data.len() implies all_fit(
        #[trigger] data[i].fields,
    ) by {
        let own = classes[i].fields;
        assert(total_size(own) <= usize::MAX);
        assert forall|j: int| 0 <= j < data[i].fields.len() implies field_fits(
            #[trigger] data[i].fields[j],
        ) by {
            lemma_offset_at_monotone(own, (j + 1) as nat, own.len());
        }
    }
}

/// Position of the first class with the given identifier.
pub fn find_by_id(classes: &[Class], id: ClassId) -> (found: Option<usize>)
    ensures
        match found {
            Some(i) => i < classes@.len() && first_with_id(class_views(classes@), id) == Some(
                i as int,
            ),
            None => first_with_id(class_views(classes@), id) is None,
        },
{
    let ghost views = class_views(classes@);
    let mut i: usize = 0;
    while i < classes.len()
        invariant
            i <= classes.len(),
            views == class_views(classes@),
            forall|j: int| 0 <= j < i ==> views[j].id != id,
        decreases classes.len() - i,
    {
        if classes[i].id() == id {
            proof {
                lemma_first_with_id(views, id);
                assert(views[i as int].id == id);
            }
            return Some(i);
        }
        assert(views[i as int].id != id);
        i += 1;
    }
    proof {
        lemma_first_with_id(views, id);
    }
    None
}

/// Collects classes and fields into their stored form, keeping the running
/// offset of the class that is being written.
#[derive(Debug)]
pub struct ProjectDataGenerator {
    classes: Vec<DataClass>,
    offset: usize,
}

/// Why a generator gave no text.
#[derive(Clone, Copy, Debug, PartialEq, Eq, Structural)]
pub enum GeneratorError {
    /// The generator has no textual output.
    Unsupported,
}

impl Default for ProjectDataGenerator {
    fn default() -> (g: ProjectDataGenerator)
        ensures
            g.classes() == Seq::<DataClassView>::empty(),
            g.offset() == 0,
    {
        ProjectDataGenerator::new()
    }
}

/// What a consumer of class layouts is handed: the classes in order, each
/// opened, given its fields one by one, and closed. An implementation
/// says through `classes` and `offset` what it has taken in.
pub trait Generator {
    /// The classes taken in so far, each with the fields taken in for it.
    spec fn classes(&self) -> Seq<DataClassView>;

    /// The offset at which the next field will be taken in.
    spec fn offset(&self) -> nat;

    /// Opens a new class without fields.
    fn begin_class(&mut self, name: &str)
        ensures
            final(self).classes() == old(self).classes().push(
                DataClassView { name: name@, fields: Seq::empty() },
            ),
            final(self).offset() == old(self).offset(),
    ;

    /// Takes in a field at the running offset for the class that was
    /// opened last, and moves the offset past it.
    fn add_field(&mut self, name: &str, kind: FieldKind, metadata: Option<&str>)
        requires
            old(self).classes().len() > 0,
            old(self).offset() + kind.spec_size() <= usize::MAX,
        ensures
            final(self).offset() == old(self).offset() + kind.spec_size(),
            final(self).classes() == old(self).classes().update(
                old(self).classes().len() - 1,
                DataClassView {
                    name: old(self).classes().last().name,
                    fields: old(self).classes().last().fields.push(
                        DataFieldView {
                            name: name@,
                            offset: old(self).offset(),
                            kind,
                            metadata: match metadata {
                                Some(m) => Some(m@),
                                None => None,
                            },
                        },
                    ),
                },
            ),
    ;

    /// Moves the running offset on without a field.
    fn add_offset(&mut self, offset: usize)
        requires
            old(self).offset() + offset <= usize::MAX,
        ensures
            final(self).offset() == old(self).offset() + offset,
            final(self).classes() == old(self).classes(),
    ;

    /// Closes the class: the next one starts at offset 0.
    fn end_class(&mut self)
        ensures
            final(self).offset() == 0,
            final(self).classes() == old(self).classes(),
    ;

    /// The text made of what was taken in, where the implementation makes one.
    fn finilize(&mut self) -> (text: Result<String, GeneratorError>)
        ensures
            final(self).offset() == old(self).offset(),
            final(self).classes() == old(self).classes(),
    ;
}

impl ProjectDataGenerator {
    pub fn new() -> (g: ProjectDataGenerator)
        ensures
            g.classes() == Seq::<DataClassView>::empty(),
            g.offset() == 0,
    {
        let g = ProjectDataGenerator { classes: Vec::new(), offset: 0 };
        assert(g.classes() =~= Seq::<DataClassView>::empty());
        g
    }

    /// Hands out what was written.
    pub fn into_classes(self) -> (classes: Vec<DataClass>)
        ensures
            data_class_views(classes@) == self.classes(),
    {
        self.classes
    }
}

impl Generator for ProjectDataGenerator {
    closed spec fn classes(&self) -> Seq<DataClassView> {
        data_class_views(self.classes@)
    }

    closed spec fn offset(&self) -> nat {
        self.offset as nat
    }

    fn begin_class(&mut self, name: &str) {
        let class = DataClass { name: name.to_owned(), fields: Vec::new() };
        assert(class@.fields =~= Seq::<DataFieldView>::empty());
        self.classes.push(class);
        assert(self.classes() =~= old(self).classes().push(class@));
    }

    fn add_field(&mut self, name: &str, kind: FieldKind, metadata: Option<&str>) {
        let size = kind.size();
        let metadata = match metadata {
            Some(m) => Some(m.to_owned()),
            None => None,
        };
        let field = DataField { metadata, name: name.to_owned(), offset: self.offset, kind };
        let last = self.classes.len() - 1;
        self.classes[last].fields.push(field);
        self.offset = self.offset + size;
        proof {
            let before = old(self).classes();
            assert(self.classes@[last as int]@.fields =~= before.last().fields.push(field@));
            assert(self.classes() =~= before.update(
                before.len() - 1,
                DataClassView {
                    name: before.last().name,
                    fields: before.last().fields.push(field@),
                },
            ));
        }
    }

    fn add_offset(&mut self, offset: usize) {
        self.offset = self.offset + offset;
    }

    fn end_class(&mut self) {
        self.offset = 0;
    }

    /// This generator has no textual output, and says so.
    fn finilize(&mut self) -> (text: Result<String, GeneratorError>)
        ensures
            text == Err::<String, GeneratorError>(GeneratorError::Unsupported),
    {
        Err(GeneratorError::Unsupported)
    }
}

impl Field {
    /// Writes this field to the generator. A pointer is written with the
    /// current name of the class it refers to, looked up in `classes`.
    pub fn codegen<G: Generator>(&self, generator: &mut G, classes: &[Class])
        requires
            old(generator).classes().len() > 0,
            old(generator).offset() + self@.kind.spec_size() <= usize::MAX,
        ensures
            final(generator).offset() == old(generator).offset() + self@.kind.spec_size(),
            final(generator).classes() == old(generator).classes().update(
                old(generator).classes().len() - 1,
                DataClassView {
                    name: old(generator).classes().last().name,
                    fields: old(generator).classes().last().fields.push(
                        DataFieldView {
                            name: self@.name,
                            offset: old(generator).offset(),
                            kind: self@.kind,
                            metadata: stored_metadata(class_views(classes@), self@),
                        },
                    ),
                },
            ),
    {
        let mut metadata: Option<&str> = None;
        match self.kind() {
            FieldKind::Ptr => {
                if let Some(target) = self.target_class() {
                    if let Some(i) = find_by_id(classes, target) {
                        assert(class_views(classes@)[i as int] == classes@[i as int]@);
                        metadata = Some(classes[i].name());
                    }
                }
            },
            _ => {},
        }
        generator.add_field(self.name(), self.kind(), metadata);
    }
}

impl ProjectData {
    /// Sizes that `store` can write: the size of each class fits the
    /// machine's address space.
    pub open spec fn storable(classes: Seq<ClassView>) -> bool {
        forall|i: int| 0 <= i < classes.len() ==> total_size(#[trigger] classes[i].fields)
            <= usize::MAX
    }

    /// Whether `store` can be called on these classes.
    pub fn is_storable(classes: &[Class]) -> (b: bool)
        ensures
            b == Self::storable(class_views(classes@)),
    {
        let ghost views = class_views(classes@);
        let mut i: usize = 0;
        while i < classes.len()
            invariant
                i <= classes.len(),
                views == class_views(classes@),
                forall|a: int| 0 <= a < i ==> total_size(#[trigger] views[a].fields) <= usize::MAX,
            decreases classes.len() - i,
        {
            assert(views[i as int] == classes@[i as int]@);
            if classes[i].size().is_none() {
                return false;
            }
            i += 1;
        }
        true
    }

    /// Flattens classes into their stored form: every field with its
    /// offset, every resolvable pointer with the name of its class.
    pub fn store(classes: &[Class]) -> (data: ProjectData)
        requires
            Self::storable(class_views(classes@)),
        ensures
            data@ == stored(class_views(classes@)),
            Self::loadable(data@),
    {
        let ghost views = class_views(classes@);
        proof {
            lemma_stored_is_loadable(views);
        }
        let mut datagen = ProjectDataGenerator::new();
        let mut i: usize = 0;
        while i < classes.len()
            invariant
                i <= classes.len(),
                views == class_views(classes@),
                Self::storable(views),
                datagen.offset() == 0,
                datagen.classes() == stored(views).take(i as int),
            decreases classes.len() - i,
        {
            let class = &classes[i];
            let fields = class.fields();
            datagen.begin_class(class.name());
            assert(views[i as int] == class@);
            assert(stored_class_prefix(views, class@, 0).fields =~= Seq::<DataFieldView>::empty());
            assert(datagen.classes() =~= stored(views).take(i as int).push(
                stored_class_prefix(views, class@, 0),
            ));
            let mut j: usize = 0;
            while j < fields.len()
                invariant
                    j <= fields.len(),
                    i < classes.len(),
                    views == class_views(classes@),
                    views[i as int] == class@,
                    field_views(fields@) == class@.fields,
                    total_size(class@.fields) <= usize::MAX,
                    datagen.offset() == offset_at(class@.fields, j as nat),
                    datagen.classes() == stored(views).take(i as int).push(
                        stored_class_prefix(views, class@, j as nat),
                    ),
                decreases fields.len() - j,
            {
                proof {
                    lemma_offset_at_monotone(class@.fields, (j + 1) as nat, class@.fields.len());
                    assert(fields@[j as int]@ == class@.fields[j as int]);
                }
                let ghost before = datagen.classes();
                fields[j].codegen(&mut datagen, classes);
                proof {
                    let prefix = stored_class_prefix(views, class@, j as nat);
                    let next = stored_class_prefix(views, class@, (j + 1) as nat);
                    assert(before.last() == prefix);
                    assert(next.fields =~= prefix.fields.push(
                        stored_field(views, class@.fields, j as int),
                    ));
                    assert(datagen.classes() =~= stored(views).take(i as int).push(next));
                }
                j += 1;
            }
            datagen.end_class();
            assert(datagen.classes() =~= stored(views).take(i as int + 1));
            i += 1;
        }
        assert(stored(views).take(i as int) =~= stored(views));
        ProjectData { classes: datagen.into_classes() }
    }
}

} // verus!
