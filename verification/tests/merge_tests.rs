use directory_core::merge::{decode_rows, merge_attributes};
use directory_core::plan::{
    attribute_rows, check_declared, deletion_outcome, derive_uuid, first_repeated,
    lowercase_display_name, new_group, new_group_row,
};
use directory_core::schema::{AttributeList, AttributeSchema};
use directory_core::sort::stable_sort;
use directory_core::tables::AttributeRow;
use directory_core::types::{
    Attribute, AttributeType, AttributeValue, DomainError, Group, GroupId, Scalar, Timestamp,
};

fn declared(name: &str, attribute_type: AttributeType) -> AttributeSchema {
    AttributeSchema {
        name: name.to_string(),
        attribute_type,
        is_list: false,
        is_visible: true,
        is_editable: true,
        is_hardcoded: false,
        is_readonly: false,
    }
}

fn schema() -> AttributeList {
    AttributeList {
        attributes: vec![declared("gid", AttributeType::Integer), declared("note", AttributeType::String)],
    }
}

fn group(id: i32, name: &str) -> Group {
    Group {
        id: GroupId(id),
        display_name: name.to_string(),
        creation_date: Timestamp { seconds: 0, nanoseconds: 0 },
        uuid: String::new(),
        users: vec!["u".to_string()],
        attributes: Vec::new(),
    }
}

fn gid_row(id: i32, gid: u8) -> AttributeRow {
    AttributeRow {
        group_id: GroupId(id),
        attribute_name: "gid".to_string(),
        value: vec![gid, 0, 0, 0, 0, 0, 0, 0x80],
    }
}

fn note_row(id: i32, note: u8) -> AttributeRow {
    AttributeRow {
        group_id: GroupId(id),
        attribute_name: "note".to_string(),
        value: vec![1, 0, 0, 0, 0, 0, 0, 0, note],
    }
}

fn gid(value: i64) -> Attribute {
    Attribute { name: "gid".to_string(), value: AttributeValue::Single(Scalar::Integer(value)) }
}

fn note(value: &str) -> Attribute {
    Attribute { name: "note".to_string(), value: AttributeValue::Single(Scalar::String(value.to_string())) }
}

#[test]
fn sweep_gives_each_group_its_rows() {
    let groups = vec![group(1, "a"), group(2, "b"), group(4, "c")];
    let rows = vec![gid_row(1, 7), note_row(1, b'x'), gid_row(4, 9)];
    let merged = merge_attributes(groups, &rows, &schema()).unwrap();
    assert_eq!(merged.len(), 3);
    assert_eq!(merged[0].attributes, vec![gid(7), note("x")]);
    assert_eq!(merged[1].attributes, Vec::new());
    assert_eq!(merged[2].attributes, vec![gid(9)]);
    assert_eq!(merged[2].id, GroupId(4));
    assert_eq!(merged[2].display_name, "c");
    assert_eq!(merged[2].users, vec!["u".to_string()]);
}

#[test]
fn sweep_takes_a_run_and_stops_at_the_first_other_row() {
    let groups = vec![group(1, "a")];
    let rows = vec![gid_row(1, 7), note_row(2, b'x'), note_row(1, b'y')];
    let merged = merge_attributes(groups, &rows, &schema()).unwrap();
    assert_eq!(merged[0].attributes, vec![gid(7)]);
}

#[test]
fn sweep_stands_still_at_a_row_of_no_group() {
    let groups = vec![group(1, "a"), group(3, "b")];
    let rows = vec![gid_row(1, 7), gid_row(2, 8), gid_row(3, 9)];
    let merged = merge_attributes(groups, &rows, &schema()).unwrap();
    assert_eq!(merged[0].attributes, vec![gid(7)]);
    assert_eq!(merged[1].attributes, Vec::new());
}

#[test]
fn sweep_fails_with_the_first_row_that_cannot_be_read() {
    let groups = vec![group(1, "a"), group(2, "b")];
    let unknown = AttributeRow { group_id: GroupId(1), attribute_name: "zzz".to_string(), value: Vec::new() };
    let broken = AttributeRow { group_id: GroupId(2), attribute_name: "gid".to_string(), value: vec![1] };
    let rows = vec![gid_row(1, 7), unknown, broken];
    assert_eq!(
        merge_attributes(groups, &rows, &schema()),
        Err(DomainError::SchemaMismatch("zzz".to_string()))
    );
    let groups = vec![group(2, "b")];
    let broken = AttributeRow { group_id: GroupId(2), attribute_name: "gid".to_string(), value: vec![1] };
    assert_eq!(
        merge_attributes(groups, &vec![broken], &schema()),
        Err(DomainError::DecodeError("gid".to_string()))
    );
}

#[test]
fn sweep_over_nothing() {
    assert_eq!(merge_attributes(Vec::new(), &vec![gid_row(1, 7)], &schema()), Ok(Vec::new()));
    let merged = merge_attributes(vec![group(1, "a")], &Vec::new(), &schema()).unwrap();
    assert_eq!(merged[0].attributes, Vec::new());
}

#[test]
fn rows_are_read_between_two_places() {
    let rows = vec![gid_row(1, 7), note_row(1, b'x'), gid_row(4, 9)];
    assert_eq!(decode_rows(&rows, 1, 3, &schema()), Ok(vec![note("x"), gid(9)]));
    assert_eq!(decode_rows(&rows, 2, 2, &schema()), Ok(Vec::new()));
}

#[test]
fn groups_are_sorted_by_name_up_to_case_and_equal_names_keep_their_order() {
    let mut groups = vec![group(1, "b"), group(2, "A"), group(3, "B"), group(4, "a"), group(5, "C")];
    stable_sort(&mut groups);
    let ids: Vec<i32> = groups.iter().map(|g| g.id.0).collect();
    assert_eq!(ids, vec![2, 4, 1, 3, 5]);
}

#[test]
fn rows_are_made_for_declared_attributes_only() {
    let attributes = vec![gid(512), note("n")];
    assert_eq!(
        attribute_rows(&schema(), GroupId(3), &attributes),
        Ok(vec![
            AttributeRow {
                group_id: GroupId(3),
                attribute_name: "gid".to_string(),
                value: vec![0, 2, 0, 0, 0, 0, 0, 0x80],
            },
            AttributeRow {
                group_id: GroupId(3),
                attribute_name: "note".to_string(),
                value: vec![1, 0, 0, 0, 0, 0, 0, 0, b'n'],
            },
        ])
    );
    let mut undeclared = gid(1);
    undeclared.name = "uid".to_string();
    let mut other = gid(1);
    other.name = "other".to_string();
    assert_eq!(
        attribute_rows(&schema(), GroupId(3), &vec![gid(1), undeclared, other]),
        Err(DomainError::SchemaViolation("uid".to_string()))
    );
    assert_eq!(attribute_rows(&schema(), GroupId(3), &Vec::new()), Ok(Vec::new()));
}

#[test]
fn names_are_checked_against_the_schema() {
    assert_eq!(check_declared(&schema(), &vec!["note".to_string(), "gid".to_string()]), Ok(()));
    assert_eq!(
        check_declared(&schema(), &vec!["note".to_string(), "x".to_string(), "y".to_string()]),
        Err(DomainError::SchemaViolation("x".to_string()))
    );
    assert_eq!(check_declared(&schema(), &Vec::new()), Ok(()));
}

#[test]
fn first_repeated_name_is_found() {
    assert_eq!(first_repeated(&vec![gid(1), note("a")]), None);
    assert_eq!(first_repeated(&vec![gid(1), note("a"), note("b"), gid(2)]), Some(2));
    assert_eq!(first_repeated(&Vec::new()), None);
}

#[test]
fn deletion_of_no_row_is_not_found() {
    assert_eq!(deletion_outcome(GroupId(5), 0), Err(DomainError::NotFound(GroupId(5))));
    assert_eq!(deletion_outcome(GroupId(5), 1), Ok(()));
}

#[test]
fn uuid_is_derived_from_name_and_time() {
    let time = Timestamp { seconds: -1, nanoseconds: 5 };
    let mut source = "Gruppe é".as_bytes().to_vec();
    source.extend_from_slice(&[0xff, 0xff, 0xff, 0xff, 0xff, 0xff, 0xff, 0x7f]);
    source.extend_from_slice(&[5, 0, 0, 0]);
    let expected = uuid::Uuid::new_v3(&uuid::Uuid::NAMESPACE_X500, &source).to_string();
    assert_eq!(derive_uuid("Gruppe é", time), expected);
    assert_ne!(derive_uuid("Gruppe é", time), derive_uuid("Gruppe e", time));
    assert_ne!(
        derive_uuid("Gruppe é", time),
        derive_uuid("Gruppe é", Timestamp { seconds: -1, nanoseconds: 6 })
    );
    let row = new_group_row(GroupId(8), "Gruppe É".to_string(), time);
    assert_eq!(row.group_id, GroupId(8));
    assert_eq!(row.display_name, "Gruppe É");
    assert_eq!(row.lowercase_display_name, "gruppe é");
    assert_eq!(row.creation_date, time);
    assert_eq!(row.uuid, derive_uuid("Gruppe É", time));
    let group = new_group("Gruppe É".to_string(), time);
    assert_eq!(group.into_row(GroupId(8)), row);
    assert_eq!(lowercase_display_name("ÀB c"), "àb c");
}
