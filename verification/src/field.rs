//! Field kinds, fields, and the padding allocator.

use vstd::prelude::*;

verus! {

/// Identifier of a class inside one `ClassList`: its position in the arena.
#[derive(Clone, Copy, Debug, PartialEq, Eq, Structural, Hash)]
pub struct ClassId(pub usize);

/// The closed set of byte-layout categories a field may have.
#[derive(Clone, Copy, Debug, PartialEq, Eq, Structural)]
pub enum FieldKind {
    Bool,
    U8,
    U16,
    U32,
    U64,
    I8,
    I16,
    I32,
    I64,
    F32,
    F64,
    Unk8,
    Unk16,
    Unk32,
    Unk64,
    Ptr,
    StrPtr,
    /// Opaque filler of the given number of bytes.
    Padding(usize),
}

impl FieldKind {
    /// Whether a field of this kind may refer to a class.
    pub open spec fn spec_is_pointer(self) -> bool {
        self == FieldKind::Ptr || self == FieldKind::StrPtr
    }

    #[verifier::when_used_as_spec(spec_is_pointer)]
    pub fn is_pointer(self) -> (b: bool)
        ensures
            b == self.spec_is_pointer(),
    {
        match self {
            FieldKind::Ptr | FieldKind::StrPtr => true,
            _ => false,
        }
    }

    /// Number of bytes a field of this kind occupies.
    pub open spec fn spec_size(self) -> nat {
        match self {
            FieldKind::Bool | FieldKind::U8 | FieldKind::I8 | FieldKind::Unk8 => 1,
            FieldKind::U16 | FieldKind::I16 | FieldKind::Unk16 => 2,
            FieldKind::U32 | FieldKind::I32 | FieldKind::F32 | FieldKind::Unk32 => 4,
            FieldKind::U64 | FieldKind::I64 | FieldKind::F64 | FieldKind::Unk64 => 8,
            FieldKind::Ptr | FieldKind::StrPtr => 8,
            FieldKind::Padding(n) => n as nat,
        }
    }

    pub fn size(self) -> (n: usize)
        ensures
            n == self.spec_size(),
    {
        match self {
            FieldKind::Bool | FieldKind::U8 | FieldKind::I8 | FieldKind::Unk8 => 1,
            FieldKind::U16 | FieldKind::I16 | FieldKind::Unk16 => 2,
            FieldKind::U32 | FieldKind::I32 | FieldKind::F32 | FieldKind::Unk32 => 4,
            FieldKind::U64 | FieldKind::I64 | FieldKind::F64 | FieldKind::Unk64 => 8,
            FieldKind::Ptr | FieldKind::StrPtr => 8,
            FieldKind::Padding(n) => n,
        }
    }

    /// A field of this kind with the given name and no target class.
    pub fn into_field(self, name: String) -> (f: Field)
        ensures
            f@ == (FieldView { name: name@, kind: self, target: None }),
    {
        Field { name, kind: self, target_class: None }
    }
}

/// One member of a class. Only a field of a pointer kind refers to a class.
#[derive(Debug)]
pub struct Field {
    name: String,
    kind: FieldKind,
    target_class: Option<ClassId>,
}

/// The target that a field of the given kind keeps: none unless it is a pointer.
pub open spec fn kept_target(kind: FieldKind, target: Option<ClassId>) -> Option<ClassId> {
    if kind.is_pointer() {
        target
    } else {
        None
    }
}

/// What a field is, as plain values.
pub struct FieldView {
    pub name: Seq<char>,
    pub kind: FieldKind,
    pub target: Option<ClassId>,
}

impl View for Field {
    type V = FieldView;

    closed spec fn view(&self) -> FieldView {
        FieldView { name: self.name@, kind: self.kind, target: self.target_class }
    }
}

impl Clone for Field {
    fn clone(&self) -> (f: Field)
        ensures
            f@ == self@,
    {
        proof {
            use_type_invariant(self);
        }
        Field { name: self.name.clone(), kind: self.kind, target_class: self.target_class }
    }
}

impl Field {
    #[verifier::type_invariant]
    spec fn only_pointers_refer(self) -> bool {
        self.target_class is Some ==> self.kind.is_pointer()
    }

    /// A field of the given name and kind. The target is kept only by a pointer kind.
    pub fn new(name: String, kind: FieldKind, target_class: Option<ClassId>) -> (f: Field)
        ensures
            f@ == (FieldView { name: name@, kind, target: kept_target(kind, target_class) }),
    {
        if kind.is_pointer() {
            Field { name, kind, target_class }
        } else {
            Field { name, kind, target_class: None }
        }
    }

    /// A pointer field that refers to the class `target`.
    pub fn pointer(name: String, target: ClassId) -> (f: Field)
        ensures
            f@ == (FieldView { name: name@, kind: FieldKind::Ptr, target: Some(target) }),
    {
        Field { name, kind: FieldKind::Ptr, target_class: Some(target) }
    }

    /// A nameless filler of `len` bytes.
    pub fn padding(len: usize) -> (f: Field)
        ensures
            f@ == padding_field(len as nat),
    {
        Field { name: String::new(), kind: FieldKind::Padding(len), target_class: None }
    }

    pub fn name(&self) -> (s: &str)
        ensures
            s@ == self@.name,
    {
        self.name.as_str()
    }

    pub fn kind(&self) -> (k: FieldKind)
        ensures
            k == self@.kind,
    {
        self.kind
    }

    pub fn target_class(&self) -> (t: Option<ClassId>)
        ensures
            t == self@.target,
            t is Some ==> self@.kind.is_pointer(),
    {
        proof {
            use_type_invariant(self);
        }
        self.target_class
    }

    pub fn size(&self) -> (n: usize)
        ensures
            n == self@.kind.spec_size(),
    {
        self.kind.size()
    }

    /// Replaces the kind in place. The target is kept only by a pointer kind.
    pub fn set_kind(&mut self, kind: FieldKind)
        ensures
            final(self)@ == (FieldView {
                name: old(self)@.name,
                kind,
                target: kept_target(kind, old(self)@.target),
            }),
    {
        if !kind.is_pointer() {
            self.target_class = None;
        }
        self.kind = kind;
    }

    pub fn set_name(&mut self, name: String)
        ensures
            final(self)@ == (FieldView { name: name@, ..old(self)@ }),
    {
        proof {
            use_type_invariant(&*self);
        }
        self.name = name;
    }
}

/// The views of a sequence of fields, in order.
pub open spec fn field_views(fields: Seq<Field>) -> Seq<FieldView> {
    Seq::new(fields.len(), |i: int| fields[i]@)
}

/// Sum of the sizes of the first `k` fields: the offset of field `k`.
pub open spec fn offset_at(fields: Seq<FieldView>, k: nat) -> nat
    decreases k,
{
    if k == 0 || k > fields.len() {
        0
    } else {
        offset_at(fields, (k - 1) as nat) + fields[k - 1].kind.spec_size()
    }
}

/// Total size in bytes of a field sequence.
pub open spec fn total_size(fields: Seq<FieldView>) -> nat {
    offset_at(fields, fields.len())
}

/// The offset of a field never exceeds the size of the whole.
pub proof fn lemma_offset_at_monotone(fields: Seq<FieldView>, j: nat, k: nat)
    requires
        j <= k <= fields.len(),
    ensures
        offset_at(fields, j) <= offset_at(fields, k),
    decreases k,
{
    if j < k {
        lemma_offset_at_monotone(fields, j, (k - 1) as nat);
    }
}

/// The largest block of 8, 4, 2 or 1 bytes that fits into `gap`.
pub open spec fn largest_block(gap: nat) -> nat {
    if gap >= 8 {
        8
    } else if gap >= 4 {
        4
    } else if gap >= 2 {
        2
    } else {
        1
    }
}

pub open spec fn padding_field(len: nat) -> FieldView {
    FieldView { name: Seq::empty(), kind: FieldKind::Padding(len as usize), target: None }
}

/// The fillers that cover `gap` bytes: always the largest block that still fits.
pub open spec fn padding_fields(gap: nat) -> Seq<FieldView>
    decreases gap,
{
    if gap == 0 {
        Seq::empty()
    } else {
        seq![padding_field(largest_block(gap))] + padding_fields((gap - largest_block(gap)) as nat)
    }
}

/// Covers `gap` bytes with filler fields, largest blocks first.
pub fn allocate_padding(gap: usize) -> (fields: Vec<Field>)
    requires
        gap > 0,
    ensures
        field_views(fields@) == padding_fields(gap as nat),
{
    let mut fields: Vec<Field> = Vec::new();
    let mut rest: usize = gap;
    while rest > 0
        invariant
            field_views(fields@) + padding_fields(rest as nat) == padding_fields(gap as nat),
        decreases rest,
    {
        let block: usize = if rest >= 8 {
            8
        } else if rest >= 4 {
            4
        } else if rest >= 2 {
            2
        } else {
            1
        };
        let ghost before = fields@;
        fields.push(Field::padding(block));
        proof {
            let tail = padding_fields((rest - block) as nat);
            assert(field_views(fields@) == field_views(before) + seq![padding_field(block as nat)]);
            assert(field_views(fields@) + tail == field_views(before) + (seq![
                padding_field(block as nat),
            ] + tail));
        }
        rest = rest - block;
    }
    assert(field_views(fields@) + Seq::<FieldView>::empty() == field_views(fields@));
    fields
}

} // verus!
