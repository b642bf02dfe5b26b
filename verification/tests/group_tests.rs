use directory_core::filter::{GroupRequestFilter, SubStringFilter};
use directory_core::handler::GroupStore;
use directory_core::schema::{AttributeList, AttributeSchema, PublicSchema, Schema};
use directory_core::types::{
    Attribute, AttributeType, AttributeValue, CreateGroupRequest, DomainError, GroupId, Scalar,
    Timestamp, UpdateGroupRequest,
};

struct TestFixture {
    handler: GroupStore,
    schema: Schema,
    groups: Vec<GroupId>,
}

fn empty_schema() -> Schema {
    Schema {
        user_attributes: AttributeList { attributes: Vec::new() },
        group_attributes: AttributeList { attributes: Vec::new() },
    }
}

fn at(seconds: i64) -> Timestamp {
    Timestamp { seconds, nanoseconds: 0 }
}

fn insert_group(handler: &mut GroupStore, schema: &Schema, name: &str, seconds: i64) -> GroupId {
    handler
        .create_group(
            schema,
            CreateGroupRequest { display_name: name.to_string(), attributes: Vec::new() },
            at(seconds),
        )
        .unwrap()
}

impl TestFixture {
    fn new() -> Self {
        let schema = empty_schema();
        let mut handler = GroupStore::new();
        let group_1 = insert_group(&mut handler, &schema, "Best Group", 1);
        let group_2 = insert_group(&mut handler, &schema, "Worst Group", 2);
        let group_3 = insert_group(&mut handler, &schema, "Empty Group", 3);
        handler.add_user_to_group("bob".to_string(), group_1).unwrap();
        handler.add_user_to_group("patrick".to_string(), group_1).unwrap();
        handler.add_user_to_group("patrick".to_string(), group_2).unwrap();
        handler.add_user_to_group("John".to_string(), group_2).unwrap();
        TestFixture { handler, schema, groups: vec![group_1, group_2, group_3] }
    }

    fn public_schema(&self) -> PublicSchema {
        PublicSchema::from(self.schema.clone())
    }

    fn add_group_attribute(&mut self, name: &str, attribute_type: AttributeType) {
        self.schema.group_attributes.attributes.push(AttributeSchema {
            name: name.to_string(),
            attribute_type,
            is_list: false,
            is_visible: true,
            is_editable: true,
            is_hardcoded: false,
            is_readonly: false,
        });
    }
}

fn get_group_ids(fixture: &TestFixture, filters: Option<GroupRequestFilter>) -> Vec<GroupId> {
    fixture
        .handler
        .list_groups(&fixture.public_schema(), filters)
        .unwrap()
        .into_iter()
        .map(|g| g.id)
        .collect::<Vec<_>>()
}

fn get_group_names(fixture: &TestFixture, filters: Option<GroupRequestFilter>) -> Vec<String> {
    fixture
        .handler
        .list_groups(&fixture.public_schema(), filters)
        .unwrap()
        .into_iter()
        .map(|g| g.display_name)
        .collect::<Vec<_>>()
}

fn integer(i: i64) -> AttributeValue {
    AttributeValue::Single(Scalar::Integer(i))
}

fn text(s: &str) -> AttributeValue {
    AttributeValue::Single(Scalar::String(s.to_string()))
}

#[test]
fn test_list_groups_no_filter() {
    let fixture = TestFixture::new();
    assert_eq!(
        get_group_names(&fixture, None),
        vec!["Best Group".to_string(), "Empty Group".to_string(), "Worst Group".to_string()]
    );
}

#[test]
fn test_list_groups_simple_filter() {
    let fixture = TestFixture::new();
    assert_eq!(
        get_group_names(
            &fixture,
            Some(GroupRequestFilter::Or(vec![
                GroupRequestFilter::DisplayName("Empty Group".to_string()),
                GroupRequestFilter::Member("bob".to_string()),
            ]))
        ),
        vec!["Best Group".to_string(), "Empty Group".to_string()]
    );
}

#[test]
fn test_list_groups_case_insensitive_filter() {
    let fixture = TestFixture::new();
    assert_eq!(
        get_group_names(&fixture, Some(GroupRequestFilter::DisplayName("eMpTy gRoup".to_string()))),
        vec!["Empty Group".to_string()]
    );
}

#[test]
fn test_list_groups_negation() {
    let fixture = TestFixture::new();
    assert_eq!(
        get_group_ids(
            &fixture,
            Some(GroupRequestFilter::And(vec![
                GroupRequestFilter::Not(Box::new(GroupRequestFilter::DisplayName("value".to_string()))),
                GroupRequestFilter::GroupId(fixture.groups[0]),
            ]))
        ),
        vec![fixture.groups[0]]
    );
}

#[test]
fn test_list_groups_substring_filter() {
    let fixture = TestFixture::new();
    assert_eq!(
        get_group_ids(
            &fixture,
            Some(GroupRequestFilter::DisplayNameSubString(SubStringFilter {
                initial: Some("be".to_owned()),
                any: vec!["sT".to_owned()],
                final_: Some("P".to_owned()),
            })),
        ),
        // Best group
        vec![fixture.groups[0]]
    );
}

#[test]
fn test_list_groups_other_filter() {
    let mut fixture = TestFixture::new();
    fixture.add_group_attribute("gid", AttributeType::Integer);
    fixture
        .handler
        .update_group(
            &fixture.schema,
            UpdateGroupRequest {
                group_id: fixture.groups[0],
                display_name: None,
                delete_attributes: Vec::new(),
                insert_attributes: vec![Attribute { name: "gid".to_string(), value: integer(512) }],
            },
        )
        .unwrap();
    assert_eq!(
        get_group_ids(
            &fixture,
            Some(GroupRequestFilter::AttributeEquality("gid".to_string(), integer(512))),
        ),
        vec![fixture.groups[0]]
    );
}

#[test]
fn test_get_group_details() {
    let fixture = TestFixture::new();
    let details = fixture
        .handler
        .get_group_details(&fixture.public_schema(), fixture.groups[0])
        .unwrap();
    assert_eq!(details.group_id, fixture.groups[0]);
    assert_eq!(details.display_name, "Best Group".to_string());
    assert_eq!(
        get_group_ids(&fixture, Some(GroupRequestFilter::Uuid(details.uuid))),
        vec![fixture.groups[0]]
    );
}

#[test]
fn test_update_group() {
    let mut fixture = TestFixture::new();
    fixture
        .handler
        .update_group(
            &fixture.schema,
            UpdateGroupRequest {
                group_id: fixture.groups[0],
                display_name: Some("Awesomest Group".to_string()),
                delete_attributes: Vec::new(),
                insert_attributes: Vec::new(),
            },
        )
        .unwrap();
    let details = fixture
        .handler
        .get_group_details(&fixture.public_schema(), fixture.groups[0])
        .unwrap();
    assert_eq!(details.display_name, "Awesomest Group".to_string());
}

#[test]
fn test_delete_group() {
    let mut fixture = TestFixture::new();
    assert_eq!(
        get_group_ids(&fixture, None),
        vec![fixture.groups[0], fixture.groups[2], fixture.groups[1]]
    );
    fixture.handler.delete_group(fixture.groups[0]).unwrap();
    assert_eq!(get_group_ids(&fixture, None), vec![fixture.groups[2], fixture.groups[1]]);
}

#[test]
fn test_create_group() {
    let mut fixture = TestFixture::new();
    assert_eq!(
        get_group_ids(&fixture, None),
        vec![fixture.groups[0], fixture.groups[2], fixture.groups[1]]
    );
    fixture.add_group_attribute("new_attribute", AttributeType::String);
    let new_group_id = fixture
        .handler
        .create_group(
            &fixture.schema,
            CreateGroupRequest {
                display_name: "New Group".to_string(),
                attributes: vec![Attribute { name: "new_attribute".to_string(), value: text("value") }],
            },
            at(4),
        )
        .unwrap();
    let group_details = fixture
        .handler
        .get_group_details(&fixture.public_schema(), new_group_id)
        .unwrap();
    assert_eq!(group_details.display_name, "New Group".to_string());
    assert_eq!(
        group_details.attributes,
        vec![Attribute { name: "new_attribute".to_string(), value: text("value") }]
    );
}

#[test]
fn test_set_group_attributes() {
    let mut fixture = TestFixture::new();
    fixture.add_group_attribute("new_attribute", AttributeType::Integer);
    let group_id = fixture.groups[0];
    let attributes = vec![Attribute { name: "new_attribute".to_string(), value: integer(42) }];
    fixture
        .handler
        .update_group(
            &fixture.schema,
            UpdateGroupRequest {
                group_id,
                display_name: None,
                delete_attributes: Vec::new(),
                insert_attributes: attributes.clone(),
            },
        )
        .unwrap();
    let details = fixture.handler.get_group_details(&fixture.public_schema(), group_id).unwrap();
    assert_eq!(details.attributes, attributes);
    fixture
        .handler
        .update_group(
            &fixture.schema,
            UpdateGroupRequest {
                group_id,
                display_name: None,
                delete_attributes: vec!["new_attribute".to_string()],
                insert_attributes: Vec::new(),
            },
        )
        .unwrap();
    let details = fixture.handler.get_group_details(&fixture.public_schema(), group_id).unwrap();
    assert_eq!(details.attributes, Vec::new());
}

#[test]
fn test_create_group_duplicate_name() {
    let mut fixture = TestFixture::new();
    fixture
        .handler
        .create_group(
            &fixture.schema,
            CreateGroupRequest { display_name: "New Group".to_string(), attributes: Vec::new() },
            at(4),
        )
        .unwrap();
    let error = fixture
        .handler
        .create_group(
            &fixture.schema,
            CreateGroupRequest { display_name: "neW group".to_string(), attributes: Vec::new() },
            at(5),
        )
        .unwrap_err();
    assert_eq!(error, DomainError::UniquenessConflict("neW group".to_string()));
}

#[test]
fn listing_carries_members_and_attributes() {
    let mut fixture = TestFixture::new();
    fixture.add_group_attribute("gid", AttributeType::Integer);
    fixture.add_group_attribute("comment", AttributeType::String);
    for (index, gid) in [(1usize, 7i64), (0usize, 512i64)] {
        fixture
            .handler
            .update_group(
                &fixture.schema,
                UpdateGroupRequest {
                    group_id: fixture.groups[index],
                    display_name: None,
                    delete_attributes: Vec::new(),
                    insert_attributes: vec![
                        Attribute { name: "gid".to_string(), value: integer(gid) },
                        Attribute { name: "comment".to_string(), value: text("c") },
                    ],
                },
            )
            .unwrap();
    }
    let groups = fixture.handler.list_groups(&fixture.public_schema(), None).unwrap();
    assert_eq!(groups.len(), 3);
    assert_eq!(groups[0].display_name, "Best Group");
    assert_eq!(groups[0].users, vec!["bob".to_string(), "patrick".to_string()]);
    assert_eq!(
        groups[0].attributes,
        vec![
            Attribute { name: "comment".to_string(), value: text("c") },
            Attribute { name: "gid".to_string(), value: integer(512) },
        ]
    );
    assert_eq!(groups[0].creation_date, at(1));
    assert_eq!(groups[1].display_name, "Empty Group");
    assert_eq!(groups[1].users, Vec::<String>::new());
    assert_eq!(groups[1].attributes, Vec::new());
    assert_eq!(groups[2].display_name, "Worst Group");
    assert_eq!(groups[2].users, vec!["patrick".to_string(), "John".to_string()]);
    assert_eq!(
        groups[2].attributes,
        vec![
            Attribute { name: "comment".to_string(), value: text("c") },
            Attribute { name: "gid".to_string(), value: integer(7) },
        ]
    );
}

#[test]
fn listing_orders_by_display_name_up_to_case() {
    let schema = empty_schema();
    let mut handler = GroupStore::new();
    let b = insert_group(&mut handler, &schema, "beta", 1);
    let a = insert_group(&mut handler, &schema, "Alpha", 2);
    let c = insert_group(&mut handler, &schema, "Gamma", 3);
    let ids: Vec<GroupId> = handler
        .list_groups(&PublicSchema::from(schema), None)
        .unwrap()
        .into_iter()
        .map(|g| g.id)
        .collect();
    assert_eq!(ids, vec![a, b, c]);
}

#[test]
fn and_lists_the_intersection() {
    let fixture = TestFixture::new();
    let member = || GroupRequestFilter::Member("patrick".to_string());
    let not_worst = || GroupRequestFilter::Not(Box::new(GroupRequestFilter::DisplayName("worst group".to_string())));
    let first = get_group_ids(&fixture, Some(member()));
    let second = get_group_ids(&fixture, Some(not_worst()));
    let both = get_group_ids(&fixture, Some(GroupRequestFilter::And(vec![member(), not_worst()])));
    assert_eq!(first, vec![fixture.groups[0], fixture.groups[1]]);
    assert_eq!(second, vec![fixture.groups[0], fixture.groups[2]]);
    assert_eq!(both, vec![fixture.groups[0]]);
    for id in &fixture.groups {
        assert_eq!(both.contains(id), first.contains(id) && second.contains(id));
    }
}

#[test]
fn not_lists_the_complement() {
    let fixture = TestFixture::new();
    let member = || GroupRequestFilter::Member("bob".to_string());
    let with = get_group_ids(&fixture, Some(member()));
    let without = get_group_ids(&fixture, Some(GroupRequestFilter::Not(Box::new(member()))));
    let all = get_group_ids(&fixture, None);
    assert_eq!(with, vec![fixture.groups[0]]);
    assert_eq!(without, vec![fixture.groups[2], fixture.groups[1]]);
    for id in &all {
        assert!(with.contains(id) != without.contains(id));
    }
    assert_eq!(with.len() + without.len(), all.len());
}

#[test]
fn empty_and_lists_all_and_empty_or_lists_none() {
    let fixture = TestFixture::new();
    assert_eq!(get_group_ids(&fixture, Some(GroupRequestFilter::And(Vec::new()))).len(), 3);
    assert_eq!(get_group_ids(&fixture, Some(GroupRequestFilter::Or(Vec::new()))), Vec::new());
    assert_eq!(get_group_ids(&fixture, Some(GroupRequestFilter::True)).len(), 3);
    assert_eq!(get_group_ids(&fixture, Some(GroupRequestFilter::False)), Vec::new());
}

#[test]
fn attribute_presence_filter() {
    let mut fixture = TestFixture::new();
    fixture.add_group_attribute("gid", AttributeType::Integer);
    fixture
        .handler
        .update_group(
            &fixture.schema,
            UpdateGroupRequest {
                group_id: fixture.groups[1],
                display_name: None,
                delete_attributes: Vec::new(),
                insert_attributes: vec![Attribute { name: "gid".to_string(), value: integer(3) }],
            },
        )
        .unwrap();
    assert_eq!(
        get_group_ids(&fixture, Some(GroupRequestFilter::CustomAttributePresent("gid".to_string()))),
        vec![fixture.groups[1]]
    );
    assert_eq!(
        get_group_ids(&fixture, Some(GroupRequestFilter::AttributeEquality("gid".to_string(), integer(4)))),
        Vec::new()
    );
    assert_eq!(
        get_group_ids(&fixture, Some(GroupRequestFilter::CustomAttributePresent("unknown".to_string()))),
        Vec::new()
    );
}

#[test]
fn update_with_one_name_twice_keeps_the_last_value() {
    let mut fixture = TestFixture::new();
    fixture.add_group_attribute("gid", AttributeType::Integer);
    let group_id = fixture.groups[0];
    fixture
        .handler
        .update_group(
            &fixture.schema,
            UpdateGroupRequest {
                group_id,
                display_name: None,
                delete_attributes: Vec::new(),
                insert_attributes: vec![
                    Attribute { name: "gid".to_string(), value: integer(1) },
                    Attribute { name: "gid".to_string(), value: integer(2) },
                ],
            },
        )
        .unwrap();
    let details = fixture.handler.get_group_details(&fixture.public_schema(), group_id).unwrap();
    assert_eq!(details.attributes, vec![Attribute { name: "gid".to_string(), value: integer(2) }]);
    assert_eq!(fixture.handler.tables().attributes.len(), 1);
}

#[test]
fn update_removes_before_it_sets() {
    let mut fixture = TestFixture::new();
    fixture.add_group_attribute("gid", AttributeType::Integer);
    let group_id = fixture.groups[0];
    fixture
        .handler
        .update_group(
            &fixture.schema,
            UpdateGroupRequest {
                group_id,
                display_name: None,
                delete_attributes: vec!["gid".to_string()],
                insert_attributes: vec![Attribute { name: "gid".to_string(), value: integer(9) }],
            },
        )
        .unwrap();
    let details = fixture.handler.get_group_details(&fixture.public_schema(), group_id).unwrap();
    assert_eq!(details.attributes, vec![Attribute { name: "gid".to_string(), value: integer(9) }]);
}

#[test]
fn create_with_undeclared_attribute_fails_and_writes_nothing() {
    let mut fixture = TestFixture::new();
    fixture.add_group_attribute("known", AttributeType::String);
    let error = fixture
        .handler
        .create_group(
            &fixture.schema,
            CreateGroupRequest {
                display_name: "New Group".to_string(),
                attributes: vec![
                    Attribute { name: "known".to_string(), value: text("v") },
                    Attribute { name: "missing".to_string(), value: text("v") },
                    Attribute { name: "also_missing".to_string(), value: text("v") },
                ],
            },
            at(4),
        )
        .unwrap_err();
    assert_eq!(error, DomainError::SchemaViolation("missing".to_string()));
    assert_eq!(
        get_group_names(&fixture, None),
        vec!["Best Group".to_string(), "Empty Group".to_string(), "Worst Group".to_string()]
    );
    assert_eq!(fixture.handler.tables().attributes.len(), 0);
    assert_eq!(fixture.handler.tables().next_group_id, 4);
}

#[test]
fn create_cannot_write_a_built_in_attribute() {
    let mut fixture = TestFixture::new();
    let error = fixture
        .handler
        .create_group(
            &fixture.schema,
            CreateGroupRequest {
                display_name: "New Group".to_string(),
                attributes: vec![Attribute { name: "display_name".to_string(), value: text("v") }],
            },
            at(4),
        )
        .unwrap_err();
    assert_eq!(error, DomainError::SchemaViolation("display_name".to_string()));
}

#[test]
fn create_with_one_attribute_twice_fails_and_writes_nothing() {
    let mut fixture = TestFixture::new();
    fixture.add_group_attribute("gid", AttributeType::Integer);
    let error = fixture
        .handler
        .create_group(
            &fixture.schema,
            CreateGroupRequest {
                display_name: "New Group".to_string(),
                attributes: vec![
                    Attribute { name: "gid".to_string(), value: integer(1) },
                    Attribute { name: "gid".to_string(), value: integer(2) },
                ],
            },
            at(4),
        )
        .unwrap_err();
    assert_eq!(error, DomainError::StorageError("gid".to_string()));
    assert_eq!(get_group_ids(&fixture, None).len(), 3);
}

#[test]
fn create_gives_ids_in_turn_and_never_again() {
    let mut fixture = TestFixture::new();
    assert_eq!(fixture.groups, vec![GroupId(1), GroupId(2), GroupId(3)]);
    fixture.handler.delete_group(GroupId(3)).unwrap();
    let next = insert_group(&mut fixture.handler, &fixture.schema, "Empty Group", 9);
    assert_eq!(next, GroupId(4));
}

#[test]
fn delete_of_missing_group_fails_and_changes_nothing() {
    let mut fixture = TestFixture::new();
    let error = fixture.handler.delete_group(GroupId(42)).unwrap_err();
    assert_eq!(error, DomainError::NotFound(GroupId(42)));
    assert_eq!(
        get_group_ids(&fixture, None),
        vec![fixture.groups[0], fixture.groups[2], fixture.groups[1]]
    );
    assert_eq!(fixture.handler.tables().memberships.len(), 4);
}

#[test]
fn delete_takes_attributes_and_memberships_along() {
    let mut fixture = TestFixture::new();
    fixture.add_group_attribute("gid", AttributeType::Integer);
    for index in 0..2 {
        fixture
            .handler
            .update_group(
                &fixture.schema,
                UpdateGroupRequest {
                    group_id: fixture.groups[index],
                    display_name: None,
                    delete_attributes: Vec::new(),
                    insert_attributes: vec![Attribute { name: "gid".to_string(), value: integer(5) }],
                },
            )
            .unwrap();
    }
    fixture.handler.delete_group(fixture.groups[0]).unwrap();
    let tables = fixture.handler.tables();
    assert_eq!(tables.groups.len(), 2);
    assert_eq!(tables.attributes.len(), 1);
    assert_eq!(tables.attributes[0].group_id, fixture.groups[1]);
    assert_eq!(tables.memberships.len(), 2);
    assert!(tables.memberships.iter().all(|m| m.group_id == fixture.groups[1]));
}

#[test]
fn get_details_of_missing_group_fails() {
    let fixture = TestFixture::new();
    let error = fixture.handler.get_group_details(&fixture.public_schema(), GroupId(42)).unwrap_err();
    assert_eq!(error, DomainError::NotFound(GroupId(42)));
}

#[test]
fn update_of_missing_group_fails_first() {
    let mut fixture = TestFixture::new();
    let error = fixture
        .handler
        .update_group(
            &fixture.schema,
            UpdateGroupRequest {
                group_id: GroupId(42),
                display_name: Some("best group".to_string()),
                delete_attributes: vec!["missing".to_string()],
                insert_attributes: Vec::new(),
            },
        )
        .unwrap_err();
    assert_eq!(error, DomainError::NotFound(GroupId(42)));
}

#[test]
fn update_to_a_taken_name_fails_and_changes_nothing() {
    let mut fixture = TestFixture::new();
    fixture.add_group_attribute("gid", AttributeType::Integer);
    let error = fixture
        .handler
        .update_group(
            &fixture.schema,
            UpdateGroupRequest {
                group_id: fixture.groups[0],
                display_name: Some("WORST group".to_string()),
                delete_attributes: Vec::new(),
                insert_attributes: vec![Attribute { name: "gid".to_string(), value: integer(5) }],
            },
        )
        .unwrap_err();
    assert_eq!(error, DomainError::UniquenessConflict("WORST group".to_string()));
    assert_eq!(
        get_group_names(&fixture, None),
        vec!["Best Group".to_string(), "Empty Group".to_string(), "Worst Group".to_string()]
    );
    assert_eq!(fixture.handler.tables().attributes.len(), 0);
}

#[test]
fn update_may_change_the_case_of_its_own_name() {
    let mut fixture = TestFixture::new();
    fixture
        .handler
        .update_group(
            &fixture.schema,
            UpdateGroupRequest {
                group_id: fixture.groups[0],
                display_name: Some("BEST group".to_string()),
                delete_attributes: Vec::new(),
                insert_attributes: Vec::new(),
            },
        )
        .unwrap();
    let row = &fixture.handler.tables().groups[0];
    assert_eq!(row.display_name, "BEST group");
    assert_eq!(row.lowercase_display_name, "best group");
}

#[test]
fn update_with_undeclared_attribute_fails_and_changes_nothing() {
    let mut fixture = TestFixture::new();
    fixture.add_group_attribute("gid", AttributeType::Integer);
    let error = fixture
        .handler
        .update_group(
            &fixture.schema,
            UpdateGroupRequest {
                group_id: fixture.groups[0],
                display_name: Some("Renamed".to_string()),
                delete_attributes: vec!["gone".to_string()],
                insert_attributes: vec![
                    Attribute { name: "gid".to_string(), value: integer(5) },
                    Attribute { name: "missing".to_string(), value: integer(5) },
                ],
            },
        )
        .unwrap_err();
    assert_eq!(error, DomainError::SchemaViolation("missing".to_string()));
    let error = fixture
        .handler
        .update_group(
            &fixture.schema,
            UpdateGroupRequest {
                group_id: fixture.groups[0],
                display_name: Some("Renamed".to_string()),
                delete_attributes: vec!["gid".to_string(), "gone".to_string()],
                insert_attributes: vec![Attribute { name: "gid".to_string(), value: integer(5) }],
            },
        )
        .unwrap_err();
    assert_eq!(error, DomainError::SchemaViolation("gone".to_string()));
    assert_eq!(fixture.handler.tables().groups[0].display_name, "Best Group");
    assert_eq!(fixture.handler.tables().attributes.len(), 0);
}

#[test]
fn stored_row_of_undeclared_attribute_fails_the_read() {
    let mut fixture = TestFixture::new();
    fixture.add_group_attribute("gid", AttributeType::Integer);
    fixture
        .handler
        .update_group(
            &fixture.schema,
            UpdateGroupRequest {
                group_id: fixture.groups[0],
                display_name: None,
                delete_attributes: Vec::new(),
                insert_attributes: vec![Attribute { name: "gid".to_string(), value: integer(5) }],
            },
        )
        .unwrap();
    let stale = PublicSchema::from(empty_schema());
    let error = fixture.handler.get_group_details(&stale, fixture.groups[0]).unwrap_err();
    assert_eq!(error, DomainError::SchemaMismatch("gid".to_string()));
    let error = fixture.handler.list_groups(&stale, None).unwrap_err();
    assert_eq!(error, DomainError::SchemaMismatch("gid".to_string()));
    let others = fixture
        .handler
        .list_groups(&stale, Some(GroupRequestFilter::Member("John".to_string())))
        .unwrap();
    assert_eq!(others.len(), 1);
}

#[test]
fn stored_row_of_another_type_fails_the_read() {
    let mut fixture = TestFixture::new();
    fixture.add_group_attribute("gid", AttributeType::String);
    fixture
        .handler
        .update_group(
            &fixture.schema,
            UpdateGroupRequest {
                group_id: fixture.groups[0],
                display_name: None,
                delete_attributes: Vec::new(),
                insert_attributes: vec![Attribute { name: "gid".to_string(), value: text("twelve") }],
            },
        )
        .unwrap();
    let mut changed = empty_schema();
    changed.group_attributes.attributes.push(AttributeSchema {
        name: "gid".to_string(),
        attribute_type: AttributeType::Integer,
        is_list: false,
        is_visible: true,
        is_editable: true,
        is_hardcoded: false,
        is_readonly: false,
    });
    let error = fixture
        .handler
        .get_group_details(&PublicSchema::from(changed), fixture.groups[0])
        .unwrap_err();
    assert_eq!(error, DomainError::DecodeError("gid".to_string()));
}

#[test]
fn membership_of_missing_group_fails_and_repeated_membership_is_kept_once() {
    let mut fixture = TestFixture::new();
    let error = fixture.handler.add_user_to_group("bob".to_string(), GroupId(42)).unwrap_err();
    assert_eq!(error, DomainError::NotFound(GroupId(42)));
    fixture.handler.add_user_to_group("bob".to_string(), fixture.groups[0]).unwrap();
    assert_eq!(fixture.handler.tables().memberships.len(), 4);
}

#[test]
fn created_group_has_the_derived_uuid() {
    let fixture = TestFixture::new();
    let row = &fixture.handler.tables().groups[0];
    let mut source = b"Best Group".to_vec();
    source.extend_from_slice(&[1, 0, 0, 0, 0, 0, 0, 0x80]);
    source.extend_from_slice(&[0, 0, 0, 0]);
    let expected = uuid::Uuid::new_v3(&uuid::Uuid::NAMESPACE_X500, &source).to_string();
    assert_eq!(row.uuid, expected);
    assert_eq!(row.uuid.len(), 36);
    assert_eq!(row.lowercase_display_name, "best group");
    assert_eq!(row.creation_date, at(1));
    assert_eq!(row.group_id, GroupId(1));
}
