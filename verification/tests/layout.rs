use class_layout::class::{Class, ClassList};
use class_layout::field::{allocate_padding, ClassId, Field, FieldKind};
use class_layout::project::{
    DataClass, DataField, Generator, GeneratorError, ProjectData, ProjectDataGenerator,
};
use class_layout::sorting::sort_fields;

fn data_field(name: &str, offset: usize, kind: FieldKind, metadata: Option<&str>) -> DataField {
    DataField { name: name.to_owned(), offset, kind, metadata: metadata.map(|m| m.to_owned()) }
}

fn data_class(name: &str, fields: Vec<DataField>) -> DataClass {
    DataClass { name: name.to_owned(), fields }
}

fn sizes(fields: &[Field]) -> Vec<usize> {
    fields.iter().map(|f| f.size()).collect()
}

fn kinds(fields: &[Field]) -> Vec<FieldKind> {
    fields.iter().map(|f| f.kind()).collect()
}

fn names(fields: &[Field]) -> Vec<String> {
    fields.iter().map(|f| f.name().to_owned()).collect()
}

fn total(class: &Class) -> usize {
    class.fields().iter().map(|f| f.size()).sum()
}

fn class_names(list: &ClassList) -> Vec<String> {
    list.classes().iter().map(|c| c.name().to_owned()).collect()
}

#[test]
fn kind_sizes_are_fixed() {
    assert_eq!(FieldKind::Bool.size(), 1);
    assert_eq!(FieldKind::U8.size(), 1);
    assert_eq!(FieldKind::I8.size(), 1);
    assert_eq!(FieldKind::Unk8.size(), 1);
    assert_eq!(FieldKind::U16.size(), 2);
    assert_eq!(FieldKind::I16.size(), 2);
    assert_eq!(FieldKind::Unk16.size(), 2);
    assert_eq!(FieldKind::U32.size(), 4);
    assert_eq!(FieldKind::I32.size(), 4);
    assert_eq!(FieldKind::F32.size(), 4);
    assert_eq!(FieldKind::Unk32.size(), 4);
    assert_eq!(FieldKind::U64.size(), 8);
    assert_eq!(FieldKind::I64.size(), 8);
    assert_eq!(FieldKind::F64.size(), 8);
    assert_eq!(FieldKind::Unk64.size(), 8);
    assert_eq!(FieldKind::Ptr.size(), 8);
    assert_eq!(FieldKind::StrPtr.size(), 8);
    assert_eq!(FieldKind::Padding(0).size(), 0);
    assert_eq!(FieldKind::Padding(37).size(), 37);
}

#[test]
fn padding_of_thirteen_is_eight_four_one() {
    let fields = allocate_padding(13);
    assert_eq!(sizes(&fields), vec![8, 4, 1]);
    assert_eq!(
        kinds(&fields),
        vec![FieldKind::Padding(8), FieldKind::Padding(4), FieldKind::Padding(1)]
    );
    for f in fields.iter() {
        assert_eq!(f.name(), "");
        assert_eq!(f.target_class(), None);
    }
}

#[test]
fn padding_of_one_is_one_field() {
    let fields = allocate_padding(1);
    assert_eq!(sizes(&fields), vec![1]);
}

#[test]
fn padding_takes_largest_blocks_first() {
    assert_eq!(sizes(&allocate_padding(20)), vec![8, 8, 4]);
    assert_eq!(sizes(&allocate_padding(7)), vec![4, 2, 1]);
    assert_eq!(sizes(&allocate_padding(8)), vec![8]);
    assert_eq!(sizes(&allocate_padding(2)), vec![2]);
    assert_eq!(sizes(&allocate_padding(15)), vec![8, 4, 2, 1]);
    for gap in 1..200usize {
        let fields = allocate_padding(gap);
        assert_eq!(sizes(&fields).iter().sum::<usize>(), gap);
        assert_eq!(fields.len(), gap / 8 + (gap % 8).count_ones() as usize);
    }
}

#[test]
fn field_constructors_and_edits() {
    let mut f = Field::pointer("next".to_owned(), ClassId(3));
    assert_eq!(f.name(), "next");
    assert_eq!(f.kind(), FieldKind::Ptr);
    assert_eq!(f.target_class(), Some(ClassId(3)));
    assert_eq!(f.size(), 8);
    f.set_kind(FieldKind::StrPtr);
    assert_eq!(f.kind(), FieldKind::StrPtr);
    assert_eq!(f.target_class(), Some(ClassId(3)));
    f.set_kind(FieldKind::U16);
    assert_eq!(f.kind(), FieldKind::U16);
    assert_eq!(f.target_class(), None);
    assert_eq!(f.size(), 2);
    f.set_name("count".to_owned());
    assert_eq!(f.name(), "count");
    let g = FieldKind::I64.into_field("big".to_owned());
    assert_eq!(g.name(), "big");
    assert_eq!(g.kind(), FieldKind::I64);
    assert_eq!(g.target_class(), None);
    let h = g.clone();
    assert_eq!(h.name(), "big");
    assert_eq!(h.kind(), FieldKind::I64);
}

#[test]
fn class_list_hands_out_fresh_identifiers() {
    let mut list = ClassList::new();
    assert_eq!(list.len(), 0);
    let a = list.add_class("A".to_owned());
    let b = list.add_empty_class("B".to_owned());
    let a2 = list.add_class("A".to_owned());
    assert_eq!(a, ClassId(0));
    assert_eq!(b, ClassId(1));
    assert_eq!(a2, ClassId(2));
    assert_eq!(list.len(), 3);
    assert_eq!(list.by_name("A").unwrap().id(), a);
    assert_eq!(list.by_name("B").unwrap().id(), b);
    assert!(list.by_name("C").is_none());
    assert_eq!(list.by_id(a2).unwrap().name(), "A");
    assert_eq!(list.by_id(b).unwrap().field_count(), 0);
    assert!(list.by_id(ClassId(3)).is_none());
}

#[test]
fn fields_are_appended_to_the_named_class_only() {
    let mut list = ClassList::new();
    let a = list.add_class("A".to_owned());
    let b = list.add_class("B".to_owned());
    assert!(list.push_field(a, FieldKind::U32.into_field("x".to_owned())));
    assert!(list.extend_fields(a, allocate_padding(4)));
    assert!(list.push_field(b, Field::pointer("a".to_owned(), a)));
    assert!(!list.push_field(ClassId(9), FieldKind::U8.into_field("lost".to_owned())));
    assert!(!list.extend_fields(ClassId(9), allocate_padding(3)));
    assert_eq!(sizes(list.by_id(a).unwrap().fields()), vec![4, 4]);
    assert_eq!(names(list.by_id(a).unwrap().fields()), vec!["x", ""]);
    assert_eq!(list.by_id(b).unwrap().fields()[0].target_class(), Some(a));
    assert_eq!(list.len(), 2);
}

#[test]
fn store_writes_offsets_and_target_names() {
    let mut list = ClassList::new();
    let a = list.add_class("A".to_owned());
    let b = list.add_class("B".to_owned());
    list.push_field(a, FieldKind::U8.into_field("flag".to_owned()));
    list.extend_fields(a, allocate_padding(7));
    list.push_field(a, Field::pointer("other".to_owned(), b));
    list.push_field(a, Field::new("raw".to_owned(), FieldKind::Ptr, None));
    list.push_field(a, Field::new("gone".to_owned(), FieldKind::Ptr, Some(ClassId(7))));
    list.push_field(a, Field::new("text".to_owned(), FieldKind::StrPtr, Some(b)));
    list.push_field(b, FieldKind::F64.into_field("v".to_owned()));
    let data = ProjectData::store(list.classes());
    assert_eq!(data.classes.len(), 2);
    let da = &data.classes[0];
    assert_eq!(da.name, "A");
    let offsets: Vec<usize> = da.fields.iter().map(|f| f.offset).collect();
    assert_eq!(offsets, vec![0, 1, 5, 7, 8, 16, 24, 32]);
    let stored_kinds: Vec<FieldKind> = da.fields.iter().map(|f| f.kind).collect();
    assert_eq!(
        stored_kinds,
        vec![
            FieldKind::U8,
            FieldKind::Padding(4),
            FieldKind::Padding(2),
            FieldKind::Padding(1),
            FieldKind::Ptr,
            FieldKind::Ptr,
            FieldKind::Ptr,
            FieldKind::StrPtr,
        ]
    );
    assert_eq!(da.fields[0].name, "flag");
    assert_eq!(da.fields[0].metadata, None);
    assert_eq!(da.fields[4].metadata.as_deref(), Some("B"));
    assert_eq!(da.fields[5].metadata, None);
    assert_eq!(da.fields[6].metadata, None);
    assert_eq!(da.fields[7].metadata, None);
    let db = &data.classes[1];
    assert_eq!(db.name, "B");
    assert_eq!(db.fields.len(), 1);
    assert_eq!(db.fields[0].offset, 0);
    assert_eq!(db.fields[0].kind, FieldKind::F64);
}

#[test]
fn store_of_nothing_is_empty() {
    let list = ClassList::new();
    let data = ProjectData::store(list.classes());
    assert!(data.classes.is_empty());
    assert!(data.is_loadable());
    assert_eq!(data.load().len(), 0);
}

#[test]
fn generator_tracks_the_running_offset() {
    let mut g = ProjectDataGenerator::new();
    g.begin_class("A");
    g.add_field("a", FieldKind::U16, None);
    g.add_offset(6);
    g.add_field("b", FieldKind::Ptr, Some("B"));
    g.end_class();
    g.begin_class("B");
    g.add_field("c", FieldKind::Bool, None);
    g.end_class();
    assert_eq!(g.finilize(), Err(GeneratorError::Unsupported));
    let classes = g.into_classes();
    assert_eq!(classes.len(), 2);
    assert_eq!(classes[0].fields[0].offset, 0);
    assert_eq!(classes[0].fields[1].offset, 8);
    assert_eq!(classes[0].fields[1].metadata.as_deref(), Some("B"));
    assert_eq!(classes[1].fields[0].offset, 0);
    assert_eq!(classes[1].name, "B");
}

#[test]
fn sorting_is_by_offset_and_stable() {
    let fields = vec![
        data_field("c", 8, FieldKind::U8, None),
        data_field("a1", 0, FieldKind::U8, None),
        data_field("b", 4, FieldKind::U8, None),
        data_field("a2", 0, FieldKind::U16, None),
        data_field("c2", 8, FieldKind::U32, None),
    ];
    let sorted = sort_fields(&fields);
    let order: Vec<&str> = sorted.iter().map(|f| f.name.as_str()).collect();
    assert_eq!(order, vec!["a1", "a2", "b", "c", "c2"]);
    assert_eq!(fields.len(), 5);
}

#[test]
fn player_scenario() {
    let data = ProjectData {
        classes: vec![data_class(
            "Player",
            vec![
                data_field("health", 0, FieldKind::I32, None),
                data_field("next", 8, FieldKind::Ptr, Some("Player")),
            ],
        )],
    };
    assert!(data.is_loadable());
    let list = data.load();
    assert_eq!(list.len(), 1);
    let player = list.by_name("Player").unwrap();
    assert_eq!(
        kinds(player.fields()),
        vec![FieldKind::I32, FieldKind::Padding(4), FieldKind::Ptr]
    );
    assert_eq!(names(player.fields()), vec!["health", "", "next"]);
    assert_eq!(sizes(player.fields()), vec![4, 4, 8]);
    assert_eq!(player.fields()[0].target_class(), None);
    assert_eq!(player.fields()[1].target_class(), None);
    assert_eq!(player.fields()[2].target_class(), Some(player.id()));
    assert_eq!(total(player), 16);
}

#[test]
fn pointer_cycle_between_two_classes() {
    let data = ProjectData {
        classes: vec![
            data_class("A", vec![data_field("to_b", 0, FieldKind::Ptr, Some("B"))]),
            data_class("B", vec![data_field("to_a", 8, FieldKind::Ptr, Some("A"))]),
        ],
    };
    let list = data.load();
    assert_eq!(class_names(&list), vec!["A", "B"]);
    let a = list.by_name("A").unwrap();
    let b = list.by_name("B").unwrap();
    assert_ne!(a.id(), b.id());
    assert_eq!(a.fields().len(), 1);
    assert_eq!(a.fields()[0].target_class(), Some(b.id()));
    assert_eq!(kinds(b.fields()), vec![FieldKind::Padding(8), FieldKind::Ptr]);
    assert_eq!(b.fields()[1].target_class(), Some(a.id()));
}

#[test]
fn self_reference_makes_no_second_class() {
    let data = ProjectData {
        classes: vec![data_class(
            "Node",
            vec![data_field("next", 0, FieldKind::Ptr, Some("Node"))],
        )],
    };
    let list = data.load();
    assert_eq!(list.len(), 1);
    let node = list.by_name("Node").unwrap();
    assert_eq!(node.fields()[0].target_class(), Some(node.id()));
    assert_eq!(node.fields()[0].kind(), FieldKind::Ptr);
}

#[test]
fn unknown_target_name_makes_an_empty_class() {
    let data = ProjectData {
        classes: vec![data_class(
            "Holder",
            vec![
                data_field("first", 0, FieldKind::Ptr, Some("Missing")),
                data_field("second", 8, FieldKind::Ptr, Some("Missing")),
            ],
        )],
    };
    let list = data.load();
    assert_eq!(class_names(&list), vec!["Holder", "Missing"]);
    let missing = list.by_name("Missing").unwrap();
    assert_eq!(missing.field_count(), 0);
    assert_eq!(missing.id(), ClassId(1));
    let holder = list.by_name("Holder").unwrap();
    assert_eq!(holder.fields()[0].target_class(), Some(missing.id()));
    assert_eq!(holder.fields()[1].target_class(), Some(missing.id()));
}

#[test]
fn unnamed_pointer_gets_a_class_named_by_its_offset() {
    let data = ProjectData {
        classes: vec![data_class(
            "Holder",
            vec![
                data_field("p", 0x10, FieldKind::Ptr, None),
                data_field("q", 0x1A8, FieldKind::Ptr, None),
                data_field("r", 0, FieldKind::Ptr, None),
            ],
        )],
    };
    let list = data.load();
    assert_eq!(class_names(&list), vec!["Holder", "C0", "C10", "C1A8"]);
    let holder = list.by_name("Holder").unwrap();
    let pointers: Vec<&Field> =
        holder.fields().iter().filter(|f| f.kind() == FieldKind::Ptr).collect();
    assert_eq!(pointers.len(), 3);
    assert_eq!(pointers[0].target_class(), Some(list.by_name("C0").unwrap().id()));
    assert_eq!(pointers[1].target_class(), Some(list.by_name("C10").unwrap().id()));
    assert_eq!(pointers[2].target_class(), Some(list.by_name("C1A8").unwrap().id()));
    assert_eq!(list.by_name("C10").unwrap().field_count(), 0);
}

#[test]
fn placeholder_names_use_upper_case_hex_digits() {
    let offsets: Vec<usize> = vec![0xABCD, 0x1A, 255, 9, 0xE0F0];
    let expected = vec!["C9", "C1A", "CFF", "CABCD", "CE0F0"];
    let fields: Vec<DataField> =
        offsets.iter().map(|o| data_field("p", *o, FieldKind::Ptr, None)).collect();
    let list = ProjectData { classes: vec![data_class("H", fields)] }.load();
    let got = class_names(&list);
    assert_eq!(got[0], "H");
    assert_eq!(&got[1..], &expected[..]);
}

#[test]
fn fields_are_placed_by_ascending_offset_with_gaps_filled() {
    let data = ProjectData {
        classes: vec![data_class(
            "S",
            vec![
                data_field("late", 13, FieldKind::U8, None),
                data_field("early", 0, FieldKind::U16, None),
                data_field("text", 16, FieldKind::StrPtr, Some("S")),
            ],
        )],
    };
    let list = data.load();
    let s = list.by_name("S").unwrap();
    assert_eq!(names(s.fields()), vec!["early", "", "", "", "late", "", "text"]);
    assert_eq!(sizes(s.fields()), vec![2, 8, 2, 1, 1, 2, 8]);
    assert_eq!(s.fields()[6].kind(), FieldKind::StrPtr);
    assert_eq!(s.fields()[6].target_class(), None);
    assert_eq!(total(s), 24);
}

#[test]
fn loaded_classes_are_rounded_up_to_eight_bytes() {
    let data = ProjectData {
        classes: vec![
            data_class("One", vec![data_field("a", 0, FieldKind::U8, None)]),
            data_class("Empty", vec![]),
            data_class("Five", vec![data_field("b", 1, FieldKind::U32, None)]),
            data_class("Even", vec![data_field("c", 8, FieldKind::I64, None)]),
        ],
    };
    let list = data.load();
    assert_eq!(sizes(list.by_name("One").unwrap().fields()), vec![1, 4, 2, 1]);
    assert_eq!(list.by_name("Empty").unwrap().field_count(), 0);
    assert_eq!(sizes(list.by_name("Five").unwrap().fields()), vec![1, 4, 2, 1]);
    assert_eq!(sizes(list.by_name("Even").unwrap().fields()), vec![8, 8]);
    for c in list.classes() {
        assert_eq!(total(c) % 8, 0);
    }
}

#[test]
fn every_stored_field_lands_on_its_offset() {
    let stored = vec![
        data_field("a", 3, FieldKind::U8, None),
        data_field("b", 4, FieldKind::U32, None),
        data_field("c", 21, FieldKind::U16, None),
        data_field("d", 40, FieldKind::Ptr, Some("L")),
    ];
    let list = ProjectData { classes: vec![data_class("L", stored.clone())] }.load();
    let l = list.by_name("L").unwrap();
    let mut offset = 0;
    let mut found = 0;
    for f in l.fields() {
        if f.kind() != FieldKind::Padding(f.size()) {
            let d = stored.iter().find(|d| d.name == f.name()).unwrap();
            assert_eq!(d.offset, offset);
            assert_eq!(d.kind, f.kind());
            found += 1;
        }
        offset += f.size();
    }
    assert_eq!(found, 4);
    assert_eq!(offset, 48);
}

#[test]
fn store_then_load_gives_the_same_classes() {
    let mut list = ClassList::new();
    let a = list.add_class("A".to_owned());
    let b = list.add_class("B".to_owned());
    list.push_field(a, FieldKind::U32.into_field("x".to_owned()));
    list.extend_fields(a, allocate_padding(4));
    list.push_field(a, Field::pointer("b".to_owned(), b));
    list.push_field(b, Field::pointer("a".to_owned(), a));
    list.push_field(b, Field::pointer("me".to_owned(), b));
    list.push_field(b, FieldKind::F64.into_field("v".to_owned()));
    let again = ProjectData::store(list.classes()).load();
    assert_eq!(again.len(), list.len());
    for (c, d) in list.classes().iter().zip(again.classes().iter()) {
        assert_eq!(c.id(), d.id());
        assert_eq!(c.name(), d.name());
        assert_eq!(names(c.fields()), names(d.fields()));
        assert_eq!(kinds(c.fields()), kinds(d.fields()));
        let ct: Vec<Option<ClassId>> = c.fields().iter().map(|f| f.target_class()).collect();
        let dt: Vec<Option<ClassId>> = d.fields().iter().map(|f| f.target_class()).collect();
        assert_eq!(ct, dt);
    }
    let twice = ProjectData::store(again.classes());
    let once = ProjectData::store(list.classes());
    assert_eq!(once.classes.len(), twice.classes.len());
    for (c, d) in once.classes.iter().zip(twice.classes.iter()) {
        assert_eq!(c.name, d.name);
        assert_eq!(c.fields.len(), d.fields.len());
        for (f, g) in c.fields.iter().zip(d.fields.iter()) {
            assert_eq!(f.name, g.name);
            assert_eq!(f.offset, g.offset);
            assert_eq!(f.kind, g.kind);
            assert_eq!(f.metadata, g.metadata);
        }
    }
}

#[test]
fn store_then_load_rounds_an_unaligned_class_up() {
    let mut list = ClassList::new();
    let a = list.add_class("A".to_owned());
    list.push_field(a, FieldKind::U8.into_field("x".to_owned()));
    let again = ProjectData::store(list.classes()).load();
    assert_eq!(sizes(again.by_name("A").unwrap().fields()), vec![1, 4, 2, 1]);
    assert_eq!(again.by_name("A").unwrap().fields()[0].name(), "x");
}

#[test]
fn classes_of_one_name_fill_the_first_of_them() {
    let data = ProjectData {
        classes: vec![
            data_class("D", vec![data_field("a", 0, FieldKind::U64, None)]),
            data_class("D", vec![data_field("b", 0, FieldKind::U32, None)]),
        ],
    };
    let list = data.load();
    assert_eq!(class_names(&list), vec!["D", "D"]);
    assert_eq!(sizes(list.by_id(ClassId(0)).unwrap().fields()), vec![8, 4, 4]);
    assert_eq!(list.by_id(ClassId(1)).unwrap().field_count(), 0);
}

#[test]
fn overlapping_fields_are_placed_one_behind_the_other() {
    let data = ProjectData {
        classes: vec![data_class(
            "O",
            vec![
                data_field("a", 0, FieldKind::U64, None),
                data_field("b", 4, FieldKind::U64, None),
            ],
        )],
    };
    let list = data.load();
    let o = list.by_name("O").unwrap();
    assert_eq!(names(o.fields()), vec!["a", "b", ""]);
    assert_eq!(sizes(o.fields()), vec![8, 8, 4]);
}

#[test]
fn a_field_beyond_the_address_space_is_not_loadable() {
    let data = ProjectData {
        classes: vec![data_class(
            "X",
            vec![data_field("far", usize::MAX - 4, FieldKind::U32, None)],
        )],
    };
    assert!(data.is_loadable());
    let data = ProjectData {
        classes: vec![
            data_class("Y", vec![]),
            data_class("X", vec![data_field("far", usize::MAX - 3, FieldKind::U64, None)]),
        ],
    };
    assert!(!data.is_loadable());
    let data = ProjectData {
        classes: vec![data_class(
            "X",
            vec![data_field("pad", 1, FieldKind::Padding(usize::MAX), None)],
        )],
    };
    assert!(!data.is_loadable());
}

#[test]
fn stored_data_can_be_copied() {
    let data = ProjectData {
        classes: vec![
            data_class(
                "A",
                vec![
                    data_field("x", 0, FieldKind::U8, None),
                    data_field("p", 8, FieldKind::Ptr, Some("B")),
                ],
            ),
            data_class("B", vec![]),
        ],
    };
    let copy = data.clone();
    assert_eq!(copy.classes.len(), 2);
    assert_eq!(copy.classes[0].name, "A");
    assert_eq!(copy.classes[0].fields.len(), 2);
    assert_eq!(copy.classes[0].fields[1].name, "p");
    assert_eq!(copy.classes[0].fields[1].offset, 8);
    assert_eq!(copy.classes[0].fields[1].kind, FieldKind::Ptr);
    assert_eq!(copy.classes[0].fields[1].metadata.as_deref(), Some("B"));
    assert_eq!(copy.classes[1].name, "B");
    assert!(copy.classes[1].fields.is_empty());
    let first = data.load();
    let second = copy.load();
    assert_eq!(class_names(&first), class_names(&second));
    assert_eq!(
        sizes(first.by_name("A").unwrap().fields()),
        sizes(second.by_name("A").unwrap().fields())
    );
}

#[test]
fn a_fresh_generator_is_empty() {
    let mut g = ProjectDataGenerator::default();
    assert_eq!(g.finilize(), Err(GeneratorError::Unsupported));
    g.begin_class("Only");
    g.add_field("f", FieldKind::U64, None);
    let classes = g.into_classes();
    assert_eq!(classes.len(), 1);
    assert_eq!(classes[0].fields[0].offset, 0);
}

#[test]
fn a_field_hands_itself_to_a_generator() {
    let mut list = ClassList::new();
    let a = list.add_class("A".to_owned());
    let b = list.add_class("B".to_owned());
    let mut g = ProjectDataGenerator::new();
    g.begin_class("Written");
    FieldKind::U16.into_field("n".to_owned()).codegen(&mut g, list.classes());
    Field::pointer("to_b".to_owned(), b).codegen(&mut g, list.classes());
    Field::pointer("to_a".to_owned(), a).codegen(&mut g, list.classes());
    Field::pointer("to_none".to_owned(), ClassId(5)).codegen(&mut g, list.classes());
    g.end_class();
    let classes = g.into_classes();
    assert_eq!(classes.len(), 1);
    assert_eq!(classes[0].name, "Written");
    let written: Vec<(&str, usize, FieldKind, Option<&str>)> = classes[0]
        .fields
        .iter()
        .map(|f| (f.name.as_str(), f.offset, f.kind, f.metadata.as_deref()))
        .collect();
    assert_eq!(
        written,
        vec![
            ("n", 0, FieldKind::U16, None),
            ("to_b", 2, FieldKind::Ptr, Some("B")),
            ("to_a", 10, FieldKind::Ptr, Some("A")),
            ("to_none", 18, FieldKind::Ptr, None),
        ]
    );
}
