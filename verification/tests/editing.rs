use class_layout::class::{Class, ClassList};
use class_layout::field::{allocate_padding, ClassId, Field, FieldKind};
use class_layout::loading::open_project;
use class_layout::naming::placeholder;
use class_layout::project::{DataClass, DataField, ProjectData};

fn field_sizes(class: &Class) -> Vec<usize> {
    class.fields().iter().map(|f| f.size()).collect()
}

fn field_names(class: &Class) -> Vec<String> {
    class.fields().iter().map(|f| f.name().to_owned()).collect()
}

fn sample() -> (ClassList, ClassId) {
    let mut list = ClassList::default();
    let id = list.add_class("Sample".to_owned());
    list.push_field(id, FieldKind::U32.into_field("a".to_owned()));
    list.push_field(id, FieldKind::U16.into_field("b".to_owned()));
    list.push_field(id, Field::pointer("c".to_owned(), id));
    list.push_field(id, FieldKind::U8.into_field("d".to_owned()));
    (list, id)
}

#[test]
fn only_pointer_kinds_keep_a_target() {
    assert!(FieldKind::Ptr.is_pointer());
    assert!(FieldKind::StrPtr.is_pointer());
    assert!(!FieldKind::U64.is_pointer());
    assert!(!FieldKind::Padding(8).is_pointer());
    let f = Field::new("n".to_owned(), FieldKind::U64, Some(ClassId(1)));
    assert_eq!(f.target_class(), None);
    let g = Field::new("p".to_owned(), FieldKind::Ptr, Some(ClassId(1)));
    assert_eq!(g.target_class(), Some(ClassId(1)));
    let h = Field::new("s".to_owned(), FieldKind::StrPtr, Some(ClassId(2)));
    assert_eq!(h.target_class(), Some(ClassId(2)));
    let raw = Field::new("r".to_owned(), FieldKind::Ptr, None);
    assert_eq!(raw.target_class(), None);
}

#[test]
fn offsets_are_sums_of_the_sizes_before() {
    let (list, id) = sample();
    let class = list.by_id(id).unwrap();
    assert_eq!(class.offset_of(0), Some(0));
    assert_eq!(class.offset_of(1), Some(4));
    assert_eq!(class.offset_of(2), Some(6));
    assert_eq!(class.offset_of(3), Some(14));
    assert_eq!(class.offset_of(4), Some(15));
    assert_eq!(class.offset_of(5), None);
    assert_eq!(class.size(), Some(15));
    assert_eq!(list.by_id(id).unwrap().field_count(), 4);
}

#[test]
fn a_size_beyond_the_address_space_is_not_given() {
    let mut list = ClassList::new();
    let id = list.add_class("Huge".to_owned());
    list.push_field(id, Field::padding(usize::MAX));
    assert_eq!(list.by_id(id).unwrap().size(), Some(usize::MAX));
    assert!(ProjectData::is_storable(list.classes()));
    list.push_field(id, FieldKind::U8.into_field("over".to_owned()));
    assert_eq!(list.by_id(id).unwrap().size(), None);
    assert_eq!(list.by_id(id).unwrap().offset_of(1), Some(usize::MAX));
    assert!(!ProjectData::is_storable(list.classes()));
}

#[test]
fn what_was_stored_is_loadable() {
    let (list, _) = sample();
    assert!(ProjectData::is_storable(list.classes()));
    let data = ProjectData::store(list.classes());
    assert!(data.is_loadable());
}

#[test]
fn bytes_are_added_at_the_end() {
    let (mut list, id) = sample();
    let class = list.by_id_mut(id).unwrap();
    class.add_bytes(13);
    class.add_bytes(0);
    assert_eq!(field_sizes(class), vec![4, 2, 8, 1, 8, 4, 1]);
    assert_eq!(field_names(class), vec!["a", "b", "c", "d", "", "", ""]);
    assert_eq!(list.by_id(id).unwrap().size(), Some(28));
}

#[test]
fn bytes_are_inserted_before_a_field() {
    let (mut list, id) = sample();
    let class = list.by_id_mut(id).unwrap();
    assert!(class.insert_bytes(1, 6));
    assert_eq!(field_sizes(class), vec![4, 4, 2, 2, 8, 1]);
    assert_eq!(field_names(class), vec!["a", "", "", "b", "c", "d"]);
    assert!(class.insert_bytes(6, 1));
    assert_eq!(field_sizes(class), vec![4, 4, 2, 2, 8, 1, 1]);
    assert!(class.insert_bytes(0, 0));
    assert_eq!(class.field_count(), 7);
    assert!(!class.insert_bytes(8, 4));
    assert_eq!(class.field_count(), 7);
}

#[test]
fn fields_are_removed_by_count() {
    let (mut list, id) = sample();
    let class = list.by_id_mut(id).unwrap();
    assert_eq!(class.remove_fields(1, 2), 2);
    assert_eq!(field_names(class), vec!["a", "d"]);
    assert_eq!(class.remove_fields(1, 16), 1);
    assert_eq!(field_names(class), vec!["a"]);
    assert_eq!(class.remove_fields(1, 1), 0);
    assert_eq!(class.remove_fields(5, 1), 0);
    assert_eq!(class.remove_fields(0, 0), 0);
    assert_eq!(field_names(class), vec!["a"]);
    assert_eq!(class.remove_fields(0, 1), 1);
    assert_eq!(class.field_count(), 0);
}

#[test]
fn a_kind_is_replaced_in_place() {
    let (mut list, id) = sample();
    let class = list.by_id_mut(id).unwrap();
    assert!(class.change_kind(2, FieldKind::StrPtr));
    assert_eq!(class.fields()[2].kind(), FieldKind::StrPtr);
    assert_eq!(class.fields()[2].target_class(), Some(id));
    assert_eq!(class.fields()[2].name(), "c");
    assert!(class.change_kind(2, FieldKind::I64));
    assert_eq!(class.fields()[2].kind(), FieldKind::I64);
    assert_eq!(class.fields()[2].target_class(), None);
    assert!(class.change_kind(0, FieldKind::F32));
    assert_eq!(class.fields()[0].kind(), FieldKind::F32);
    assert!(!class.change_kind(4, FieldKind::U8));
    assert_eq!(field_sizes(class), vec![4, 2, 8, 1]);
}

#[test]
fn a_renamed_class_is_found_under_its_new_name() {
    let (mut list, id) = sample();
    let other = list.add_class("Other".to_owned());
    list.push_field(other, Field::pointer("s".to_owned(), id));
    assert!(list.rename_class(id, "Renamed".to_owned()));
    assert!(list.by_name("Sample").is_none());
    assert_eq!(list.by_name("Renamed").unwrap().id(), id);
    assert_eq!(list.by_id(other).unwrap().fields()[0].target_class(), Some(id));
    assert!(!list.rename_class(ClassId(2), "Nobody".to_owned()));
    assert!(list.by_name("Nobody").is_none());
    list.by_id_mut(other).unwrap().rename("Third".to_owned());
    assert_eq!(list.by_name("Third").unwrap().id(), other);
    assert!(list.by_id_mut(ClassId(2)).is_none());
    let data = ProjectData::store(list.classes());
    assert_eq!(data.classes[1].fields[0].metadata.as_deref(), Some("Renamed"));
}

#[test]
fn a_class_takes_fields_directly() {
    let (mut list, id) = sample();
    let class = list.by_id_mut(id).unwrap();
    class.push_field(FieldKind::Bool.into_field("e".to_owned()));
    assert_eq!(field_names(class), vec!["a", "b", "c", "d", "e"]);
    assert_eq!(class.id(), id);
    assert_eq!(class.name(), "Sample");
    assert_eq!(allocate_padding(3).len(), 2);
}

#[test]
fn placeholder_is_the_letter_c_and_upper_case_hex() {
    assert_eq!(placeholder(0), "C0");
    assert_eq!(placeholder(9), "C9");
    assert_eq!(placeholder(10), "CA");
    assert_eq!(placeholder(15), "CF");
    assert_eq!(placeholder(16), "C10");
    assert_eq!(placeholder(0x1A), "C1A");
    assert_eq!(placeholder(255), "CFF");
    assert_eq!(placeholder(0xDEADBEEF), "CDEADBEEF");
    assert_eq!(placeholder(usize::MAX), format!("C{:X}", usize::MAX));
    for n in 0..5000usize {
        assert_eq!(placeholder(n), format!("C{:X}", n));
    }
}

#[test]
fn nothing_to_open_leaves_the_list_as_it_is() {
    let (mut list, id) = sample();
    assert!(!open_project(&mut list, None));
    assert_eq!(list.len(), 1);
    assert_eq!(list.by_name("Sample").unwrap().id(), id);
    assert_eq!(field_names(list.by_id(id).unwrap()), vec!["a", "b", "c", "d"]);
    let beyond = ProjectData {
        classes: vec![DataClass {
            name: "Far".to_owned(),
            fields: vec![DataField {
                name: "x".to_owned(),
                offset: usize::MAX,
                kind: FieldKind::U8,
                metadata: None,
            }],
        }],
    };
    assert!(!open_project(&mut list, Some(beyond)));
    assert_eq!(list.len(), 1);
    assert_eq!(field_sizes(list.by_id(id).unwrap()), vec![4, 2, 8, 1]);
}

#[test]
fn an_opened_project_replaces_the_list() {
    let (mut list, _) = sample();
    let data = ProjectData {
        classes: vec![DataClass {
            name: "New".to_owned(),
            fields: vec![DataField {
                name: "x".to_owned(),
                offset: 2,
                kind: FieldKind::U16,
                metadata: None,
            }],
        }],
    };
    assert!(open_project(&mut list, Some(data)));
    assert_eq!(list.len(), 1);
    assert!(list.by_name("Sample").is_none());
    let class = list.by_name("New").unwrap();
    assert_eq!(class.id(), ClassId(0));
    assert_eq!(field_sizes(class), vec![2, 2, 4]);
    assert_eq!(field_names(class), vec!["", "x", ""]);
}
